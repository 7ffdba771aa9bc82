//! Drawable path primitives: the command lists produced by the path
//! assembler and the output collection that holds them. Rendering the
//! commands to a textual document is the serializer's job, not done here.

use vstd::prelude::*;
use crate::geometry::Point;

verus! {

/// One drawing command of a path: an absolute move or an absolute line.
#[derive(Clone, Copy, PartialEq, Eq, Structural, Debug)]
pub enum PathCommand {
    MoveTo(i64, i64),
    LineTo(i64, i64),
}

/// The coordinate a command draws to.
pub open spec fn command_point(c: PathCommand) -> Point {
    match c {
        PathCommand::MoveTo(x, y) => Point { x, y },
        PathCommand::LineTo(x, y) => Point { x, y },
    }
}

/// The command list that renders an ordered point sequence: a move to the
/// first point, then a line to each later point, in order.
pub open spec fn path_data_spec(pts: Seq<Point>) -> Seq<PathCommand> {
    Seq::new(
        pts.len(),
        |i: int|
            if i == 0 {
                PathCommand::MoveTo(pts[0].x, pts[0].y)
            } else {
                PathCommand::LineTo(pts[i].x, pts[i].y)
            },
    )
}

/// A drawable path: its command list and its style attribute.
pub struct SVGPath {
    pub data: Vec<PathCommand>,
    pub style: String,
}

/// The attribute bundle that a document serializer renders as one path
/// element: the drawing commands for the `d` attribute, and the style text.
pub struct SVGNode {
    pub d: Vec<PathCommand>,
    pub style: String,
}

impl SVGPath {
    /// Bundles the path into the form the document serializer consumes.
    pub fn to_node(&self) -> (node: SVGNode)
        ensures
            node.d@ == self.data@,
            node.style == self.style,
    {
        let mut d: Vec<PathCommand> = Vec::new();
        let mut i: usize = 0;
        while i < self.data.len()
            invariant
                i <= self.data.len(),
                d@ == self.data@.subrange(0, i as int),
            decreases self.data.len() - i,
        {
            d.push(self.data[i]);
            proof {
                assert(d@ =~= self.data@.subrange(0, i + 1));
            }
            i = i + 1;
        }
        proof {
            assert(d@ =~= self.data@);
        }
        SVGNode { d, style: self.style.clone() }
    }
}

/// The output collection: the canvas size and the paths drawn on it.
pub struct SVGImage {
    pub width: u32,
    pub height: u32,
    pub paths: Vec<SVGPath>,
}

} // verus!
