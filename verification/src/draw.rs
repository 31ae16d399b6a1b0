//! The drawing sink: an immediate-mode command recorder.
//!
//! The engine never rasterizes. It emits an ordered sequence of abstract
//! drawing commands into a [`Canvas`]; an external renderer replays them
//! against a real 2-D drawing context.

use vstd::prelude::*;

verus! {

/// One immediate-mode drawing call. Coordinates, widths and colour channels
/// are fixed-point with [`crate::fixed::ONE`] as the unit.
#[derive(Clone, Copy, PartialEq, Eq, Structural, Debug)]
pub enum DrawCmd {
    /// Begin a new sub-path at a point.
    MoveTo { x: i64, y: i64 },
    /// Straight line from the current point.
    LineTo { x: i64, y: i64 },
    /// Cubic Bezier curve from the current point through two control points.
    CurveTo { x1: i64, y1: i64, x2: i64, y2: i64, x: i64, y: i64 },
    /// Close the current sub-path.
    ClosePath,
    /// Set the stroke and fill colour.
    SetColor { red: i64, green: i64, blue: i64 },
    /// Set the paint opacity.
    SetAlpha { alpha: i64 },
    /// Set the stroke width.
    SetLineWidth { width: i64 },
    /// Stroke the current path and clear it.
    Stroke,
    /// Fill the current path and clear it.
    Fill,
}

/// An ordered record of drawing commands.
///
/// Its view is the sequence of commands issued so far; every drawing function
/// of the library states exactly which commands it appends.
pub struct Canvas {
    /// The commands issued so far, in order.
    pub cmds: Vec<DrawCmd>,
}

impl View for Canvas {
    type V = Seq<DrawCmd>;

    open spec fn view(&self) -> Seq<DrawCmd> {
        self.cmds@
    }
}

impl Canvas {
    /// An empty canvas.
    pub fn new() -> (r: Canvas)
        ensures
            r@ == Seq::<DrawCmd>::empty(),
    {
        Canvas { cmds: Vec::new() }
    }

    /// The commands issued so far, in order.
    pub fn commands(&self) -> (r: &Vec<DrawCmd>)
        ensures
            r@ == self@,
    {
        &self.cmds
    }

    /// Begin a new sub-path at `(x, y)`.
    pub fn move_to(&mut self, x: i64, y: i64)
        ensures
            final(self)@ == old(self)@.push(DrawCmd::MoveTo { x, y }),
    {
        self.cmds.push(DrawCmd::MoveTo { x, y });
    }

    /// Straight line from the current point to `(x, y)`.
    pub fn line_to(&mut self, x: i64, y: i64)
        ensures
            final(self)@ == old(self)@.push(DrawCmd::LineTo { x, y }),
    {
        self.cmds.push(DrawCmd::LineTo { x, y });
    }

    /// Cubic curve to `(x, y)` with control points `(x1, y1)` and `(x2, y2)`.
    pub fn curve_to(&mut self, x1: i64, y1: i64, x2: i64, y2: i64, x: i64, y: i64)
        ensures
            final(self)@ == old(self)@.push(DrawCmd::CurveTo { x1, y1, x2, y2, x, y }),
    {
        self.cmds.push(DrawCmd::CurveTo { x1, y1, x2, y2, x, y });
    }

    /// Close the current sub-path.
    pub fn close_path(&mut self)
        ensures
            final(self)@ == old(self)@.push(DrawCmd::ClosePath),
    {
        self.cmds.push(DrawCmd::ClosePath);
    }

    /// Set the stroke and fill colour.
    pub fn set_color(&mut self, red: i64, green: i64, blue: i64)
        ensures
            final(self)@ == old(self)@.push(DrawCmd::SetColor { red, green, blue }),
    {
        self.cmds.push(DrawCmd::SetColor { red, green, blue });
    }

    /// Set the paint opacity.
    pub fn set_alpha(&mut self, alpha: i64)
        ensures
            final(self)@ == old(self)@.push(DrawCmd::SetAlpha { alpha }),
    {
        self.cmds.push(DrawCmd::SetAlpha { alpha });
    }

    /// Set the stroke width.
    pub fn set_line_width(&mut self, width: i64)
        ensures
            final(self)@ == old(self)@.push(DrawCmd::SetLineWidth { width }),
    {
        self.cmds.push(DrawCmd::SetLineWidth { width });
    }

    /// Stroke the current path and clear it.
    pub fn stroke(&mut self)
        ensures
            final(self)@ == old(self)@.push(DrawCmd::Stroke),
    {
        self.cmds.push(DrawCmd::Stroke);
    }

    /// Fill the current path and clear it.
    pub fn fill(&mut self)
        ensures
            final(self)@ == old(self)@.push(DrawCmd::Fill),
    {
        self.cmds.push(DrawCmd::Fill);
    }
}

} // verus!
