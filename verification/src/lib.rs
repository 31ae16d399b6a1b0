//! Morphing engine for 2-D vector illustrations.
//!
//! Illustrations are built from lines, circular and elliptical arcs and cubic
//! Bezier curves. Two illustrations of unequal structure are normalized to a
//! common count of cubic curves, a curve-level correspondence is built between
//! them, and geometry, stroke width and paint style are interpolated at an
//! arbitrary blend parameter into a sequence of abstract drawing commands.
//!
//! All quantities are fixed-point integers: a coordinate, width or colour
//! channel of `1.0` is stored as [`fixed::ONE`], and angles are stored in
//! units of [`fixed::QUARTER`] per quarter turn.

pub mod draw;
pub mod fixed;
pub mod morph;
pub mod single;
pub mod segments;
pub mod trig;

pub use fixed::{ONE, HALF, QUARTER, FULL_TURN, COORD_LIMIT, CURVE_LIMIT, ANGLE_LIMIT};
