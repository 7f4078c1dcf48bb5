//! Plane vectors, rectangles and an exact integer square root.

use vstd::prelude::*;

verus! {

/// A point or a displacement in the plane, in integer units.
#[derive(Clone, Copy, Debug, PartialEq, Eq, Structural)]
pub struct Vec2 {
    pub x: i64,
    pub y: i64,
}

impl Vec2 {
    pub fn new(x: i64, y: i64) -> (r: Vec2)
        ensures
            r.x == x,
            r.y == y,
    {
        Vec2 { x, y }
    }
}

/// The largest integer whose square does not exceed `n`.
pub open spec fn is_isqrt(n: int, r: int) -> bool {
    0 <= r && r * r <= n < (r + 1) * (r + 1)
}

/// Integer square root, rounded down.
pub fn isqrt(n: u128) -> (r: u64)
    requires
        n < 0x1_0000_0000_0000_0000_0000u128,
    ensures
        is_isqrt(n as int, r as int),
{
    let mut lo: u128 = 0;
    let mut hi: u128 = 0x100_0000_0000u128;
    assert(hi * hi == 0x1_0000_0000_0000_0000_0000u128) by (nonlinear_arith)
        requires hi == 0x100_0000_0000u128;
    while hi - lo > 1
        invariant
            lo < hi <= 0x100_0000_0000u128,
            lo * lo <= n < hi * hi,
        decreases hi - lo,
    {
        let mid: u128 = lo + (hi - lo) / 2;
        assert(mid * mid <= 0x1_0000_0000_0000_0000_0000u128) by (nonlinear_arith)
            requires mid <= 0x100_0000_0000u128;
        if mid * mid <= n {
            lo = mid;
        } else {
            hi = mid;
        }
    }
    lo as u64
}

/// An axis-aligned rectangle: its top-left corner and its size.
#[derive(Clone, Copy, Debug, PartialEq, Eq, Structural)]
pub struct Rect {
    pub pos: Vec2,
    pub size: Vec2,
}

impl Rect {
    pub fn new(x: i64, y: i64, width: i64, height: i64) -> (r: Rect)
        ensures
            r.pos == (Vec2 { x, y }),
            r.size == (Vec2 { x: width, y: height }),
    {
        Rect { pos: Vec2 { x, y }, size: Vec2 { x: width, y: height } }
    }

    /// Whether `p` lies strictly inside the rectangle.
    pub fn contains(&self, p: Vec2) -> (r: bool)
        ensures
            r == (self.pos.x < p.x < self.pos.x + self.size.x && self.pos.y < p.y < self.pos.y + self.size.y),
    {
        let right: i128 = self.pos.x as i128 + self.size.x as i128;
        let bottom: i128 = self.pos.y as i128 + self.size.y as i128;
        self.pos.x < p.x && (p.x as i128) < right && self.pos.y < p.y && (p.y as i128) < bottom
    }
}

} // verus!
