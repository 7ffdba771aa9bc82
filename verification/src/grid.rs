//! The pixel grid: a read-only, row-major 2D array of color samples,
//! addressed by integer coordinates.

use vstd::prelude::*;
use crate::geometry::Point;

verus! {

/// One color sample: the three channels that decide foreground.
#[derive(Clone, Copy, PartialEq, Eq, Structural, Debug)]
pub struct Pixel {
    pub r: u8,
    pub g: u8,
    pub b: u8,
}

/// A read-only pixel grid, `width * height` samples in row-major order.
pub struct Grid {
    pub width: u32,
    pub height: u32,
    pub pixels: Vec<Pixel>,
}

impl Grid {
    /// Well-formedness: the sample store matches the dimensions, and the
    /// dimensions are small enough that every derived coordinate stays
    /// within the range the geometry routines accept.
    pub open spec fn wf(self) -> bool {
        &&& self.pixels@.len() == self.width * self.height
        &&& self.width <= 0x4000_0000
        &&& self.height <= 0x4000_0000
    }

    pub open spec fn pixel_spec(self, x: int, y: int) -> Pixel {
        self.pixels@[y * self.width + x]
    }

    /// A pixel is foreground when its three channels are not all zero.
    pub open spec fn foreground_at(self, x: int, y: int) -> bool {
        let px = self.pixel_spec(x, y);
        px.r != 0 || px.g != 0 || px.b != 0
    }

    pub open spec fn contains_point(self, p: Point) -> bool {
        &&& 0 <= p.x < self.width
        &&& 0 <= p.y < self.height
    }

    /// The point names an in-bounds foreground pixel.
    pub open spec fn foreground_point(self, p: Point) -> bool {
        &&& self.contains_point(p)
        &&& self.foreground_at(p.x as int, p.y as int)
    }

    pub open spec fn all_background(self) -> bool {
        forall|x: int, y: int|
            0 <= x < self.width && 0 <= y < self.height ==> !#[trigger] self.foreground_at(x, y)
    }

    /// Reads the sample at an in-bounds coordinate.
    pub fn pixel(&self, x: u32, y: u32) -> (p: Pixel)
        requires
            self.wf(),
            x < self.width,
            y < self.height,
        ensures
            p == self.pixel_spec(x as int, y as int),
    {
        proof {
            lemma_row_major_index(x as int, y as int, self.width as int, self.height as int);
        }
        // reading the length shows the verifier that width * height fits in
        // usize, so the index arithmetic below cannot overflow
        let total = self.pixels.len();
        let idx = (y as usize) * (self.width as usize) + (x as usize);
        self.pixels[idx]
    }

    /// Decides whether the pixel at an in-bounds coordinate is foreground.
    pub fn is_foreground(&self, x: u32, y: u32) -> (fg: bool)
        requires
            self.wf(),
            x < self.width,
            y < self.height,
        ensures
            fg == self.foreground_at(x as int, y as int),
    {
        let p = self.pixel(x, y);
        p.r != 0 || p.g != 0 || p.b != 0
    }
}

proof fn lemma_row_major_index(x: int, y: int, w: int, h: int)
    by (nonlinear_arith)
    requires
        0 <= x < w,
        0 <= y < h,
    ensures
        0 <= y * w + x < w * h,
{
}

} // verus!
