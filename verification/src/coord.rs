use vstd::prelude::*;
use glam::IVec2;

verus! {

/// A position on the grid: column `x`, row `y`. Rows grow downwards.
#[derive(Clone, Copy, PartialEq, Eq, Structural, Debug, Hash)]
pub struct Coord {
    pub x: i32,
    pub y: i32,
}

/// The absolute difference of two integers.
pub open spec fn abs_diff(a: int, b: int) -> nat {
    if a <= b {
        (b - a) as nat
    } else {
        (a - b) as nat
    }
}

/// The Manhattan distance `|dx| + |dy|` between two positions.
pub open spec fn manhattan(a: Coord, b: Coord) -> nat {
    abs_diff(a.x as int, b.x as int) + abs_diff(a.y as int, b.y as int)
}

/// Whether both components of `a + b` are 32-bit values.
pub open spec fn sum_fits(a: Coord, b: Coord) -> bool {
    &&& i32::MIN <= a.x + b.x <= i32::MAX
    &&& i32::MIN <= a.y + b.y <= i32::MAX
}

/// `glam`'s `IVec2 + IVec2`, which adds the two vectors component by
/// component with the plain `+` of `i32`. The contract leaves out the sums
/// that do not fit, on which that `+` overflows, and claims the exact sum of
/// each component for the rest.
#[verifier::external_body]
fn ivec2_sum(a: Coord, b: Coord) -> (r: Coord)
    requires
        sum_fits(a, b),
    ensures
        r.x == a.x + b.x,
        r.y == a.y + b.y,
{
    let v = IVec2::new(a.x, a.y) + IVec2::new(b.x, b.y);
    Coord { x: v.x, y: v.y }
}

impl Coord {
    /// The position in column `x` of row `y`.
    pub fn new(x: i32, y: i32) -> (c: Coord)
        ensures
            c.x == x,
            c.y == y,
    {
        Coord { x, y }
    }

    /// The position reached from `self` by the offset `by`; `self` where the
    /// sum leaves the 32-bit range.
    pub open spec fn plus(self, by: Coord) -> Coord {
        if sum_fits(self, by) {
            Coord { x: (self.x + by.x) as i32, y: (self.y + by.y) as i32 }
        } else {
            self
        }
    }

    /// Adds the offset `by` to this position. A sum that would leave the
    /// 32-bit range is not taken: the position is returned unchanged.
    pub fn offset(self, by: Coord) -> (r: Coord)
        ensures
            r == self.plus(by),
    {
        let fits_x = if by.x >= 0 {
            self.x <= i32::MAX - by.x
        } else {
            self.x >= i32::MIN - by.x
        };
        let fits_y = if by.y >= 0 {
            self.y <= i32::MAX - by.y
        } else {
            self.y >= i32::MIN - by.y
        };
        if fits_x && fits_y {
            ivec2_sum(self, by)
        } else {
            self
        }
    }
}

/// The Manhattan distance between `a` and `b`, the search's estimate of the
/// steps still to go.
pub fn manhattan_distance(a: &Coord, b: &Coord) -> (d: u64)
    ensures
        d == manhattan(*a, *b),
{
    let dx: u64 = if a.x <= b.x {
        (b.x as i64 - a.x as i64) as u64
    } else {
        (a.x as i64 - b.x as i64) as u64
    };
    let dy: u64 = if a.y <= b.y {
        (b.y as i64 - a.y as i64) as u64
    } else {
        (a.y as i64 - b.y as i64) as u64
    };
    dx + dy
}

} // verus!
