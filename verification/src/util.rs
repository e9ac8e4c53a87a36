//! Axis-aligned rectangle used for hit-testing.

use vstd::prelude::*;

verus! {

/// A rectangle given by its top-left corner and its extent.
#[derive(Clone, Copy, Debug)]
pub struct Bounds {
    pub x: i32,
    pub y: i32,
    pub w: u32,
    pub h: u32,
}

impl Bounds {
    /// What it means for a point to fall strictly inside the rectangle.
    pub open spec fn contains_spec(self, x: int, y: int) -> bool {
        &&& x > self.x as int
        &&& x < self.x as int + self.w as int
        &&& y > self.y as int
        &&& y < self.y as int + self.h as int
    }

    pub fn new(x: i32, y: i32, w: u32, h: u32) -> (b: Bounds)
        ensures
            b == (Bounds { x, y, w, h }),
    {
        Bounds { x, y, w, h }
    }

    /// Strict interior test; the arithmetic is carried out in `i64` so the
    /// test is total over all `i32` points and corners.
    pub fn contains(&self, x: i32, y: i32) -> (r: bool)
        ensures
            r == self.contains_spec(x as int, y as int),
    {
        let bx = self.x as i64;
        let by = self.y as i64;
        let bw = self.w as i64;
        let bh = self.h as i64;
        (x as i64) > bx && (x as i64) < bx + bw && (y as i64) > by && (y as i64) < by + bh
    }
}

} // verus!
