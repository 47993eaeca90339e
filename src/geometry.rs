use vstd::prelude::*;

verus! {

/// An axis-aligned rectangle: origin `(x, y)`, extent `width` by `height`.
#[derive(Clone, Copy, Debug, PartialEq, Eq, Structural)]
pub struct Rect {
    pub x: i32,
    pub y: i32,
    pub width: u32,
    pub height: u32,
}

/// The exclusive overlap test: rectangles that only touch along an edge do
/// not overlap.
pub open spec fn overlaps(a: Rect, b: Rect) -> bool {
    &&& a.x < b.x + b.width
    &&& b.x < a.x + a.width
    &&& a.y < b.y + b.height
    &&& b.y < a.y + a.height
}

/// The inclusive point test: a point on the boundary lies in the rectangle.
pub open spec fn contains_point(r: Rect, px: int, py: int) -> bool {
    &&& r.x <= px <= r.x + r.width
    &&& r.y <= py <= r.y + r.height
}

/// Distance from `p` to the interval `[lo, hi]` along one axis.
pub open spec fn axis_gap(p: int, lo: int, hi: int) -> int {
    if p < lo {
        lo - p
    } else if p > hi {
        p - hi
    } else {
        0
    }
}

/// Square of the Euclidean distance from a point to the nearest point of the
/// rectangle; zero when the point lies in it.
pub open spec fn distance_sq(r: Rect, px: int, py: int) -> int {
    let dx = axis_gap(px, r.x as int, r.x + r.width);
    let dy = axis_gap(py, r.y as int, r.y + r.height);
    dx * dx + dy * dy
}

impl Rect {
    pub open spec fn new_spec(x: i32, y: i32, width: u32, height: u32) -> Rect {
        Rect { x, y, width, height }
    }

    #[verifier::when_used_as_spec(new_spec)]
    pub fn new(x: i32, y: i32, width: u32, height: u32) -> (r: Rect)
        ensures
            r == (Rect { x, y, width, height }),
    {
        Rect { x, y, width, height }
    }

    /// Whether `self` and `other` overlap in the exclusive sense.
    pub fn intersects(&self, other: &Rect) -> (r: bool)
        ensures
            r == overlaps(*self, *other),
    {
        let ax = self.x as i64;
        let ay = self.y as i64;
        let bx = other.x as i64;
        let by = other.y as i64;
        ax < bx + other.width as i64 && bx < ax + self.width as i64 && ay < by
            + other.height as i64 && by < ay + self.height as i64
    }

    /// Whether the point lies in `self`, boundary included.
    pub fn contains_point(&self, px: i32, py: i32) -> (r: bool)
        ensures
            r == contains_point(*self, px as int, py as int),
    {
        let x = self.x as i64;
        let y = self.y as i64;
        x <= px as i64 && px as i64 <= x + self.width as i64 && y <= py as i64 && py as i64 <= y
            + self.height as i64
    }

    /// Square of the distance from the point to `self`.
    pub fn distance_sq_to(&self, px: i32, py: i32) -> (d: u128)
        ensures
            d == distance_sq(*self, px as int, py as int),
    {
        let dx = gap(px as i64, self.x as i64, self.x as i64 + self.width as i64);
        let dy = gap(py as i64, self.y as i64, self.y as i64 + self.height as i64);
        assert(dx * dx <= 0x4_0000_0000u128 * 0x4_0000_0000u128) by (nonlinear_arith)
            requires
                dx <= 0x4_0000_0000u128,
        ;
        assert(dy * dy <= 0x4_0000_0000u128 * 0x4_0000_0000u128) by (nonlinear_arith)
            requires
                dy <= 0x4_0000_0000u128,
        ;
        dx * dx + dy * dy
    }
}

fn gap(p: i64, lo: i64, hi: i64) -> (g: u128)
    requires
        -0x1_0000_0000 <= p <= 0x1_0000_0000,
        -0x1_0000_0000 <= lo <= 0x2_0000_0000,
        -0x1_0000_0000 <= hi <= 0x2_0000_0000,
    ensures
        g == axis_gap(p as int, lo as int, hi as int),
        g <= 0x4_0000_0000,
{
    if p < lo {
        (lo - p) as u128
    } else if p > hi {
        (p - hi) as u128
    } else {
        0
    }
}

} // verus!
