//! Points and vectors of the integer plane.

use crate::numeric::{abs, scale_wide, scaled};
use vstd::prelude::*;

verus! {

/// A point of the plane, or the vector from the origin to it.
#[derive(Copy, Clone, Debug, PartialEq, Eq, Structural)]
pub struct Point {
    pub x: i32,
    pub y: i32,
}

impl Point {
    /// The squared length, as a mathematical integer.
    pub open spec fn spec_len2(self) -> int {
        self.x * self.x + self.y * self.y
    }

    /// The squared distance to `other`, as a mathematical integer.
    pub open spec fn spec_dist2(self, other: Point) -> int {
        (self.x - other.x) * (self.x - other.x) + (self.y - other.y) * (self.y - other.y)
    }

    /// This vector scaled to length `len`, each coordinate rounded to the
    /// nearest integer; the zero vector stays as it is.
    pub open spec fn scaled(self, len: int) -> Point {
        Point {
            x: scaled(self.x as int, self.y as int, len).0 as i32,
            y: scaled(self.x as int, self.y as int, len).1 as i32,
        }
    }

    /// The squared length.
    pub fn len2(&self) -> (r: i32)
        requires
            self.spec_len2() <= i32::MAX,
        ensures
            r == self.spec_len2(),
    {
        let x: i64 = self.x as i64;
        let y: i64 = self.y as i64;
        proof {
            lemma_square_range(x as int);
            lemma_square_range(y as int);
        }
        (x * x + y * y) as i32
    }

    /// The squared distance to `other`.
    pub fn dist2(&self, other: &Self) -> (r: i32)
        requires
            self.spec_dist2(*other) <= i32::MAX,
        ensures
            r == self.spec_dist2(*other),
    {
        let dx: i128 = self.x as i128 - other.x as i128;
        let dy: i128 = self.y as i128 - other.y as i128;
        proof {
            lemma_square_range(dx as int);
            lemma_square_range(dy as int);
        }
        (dx * dx + dy * dy) as i32
    }

    /// Scales the vector to length `target_len`.
    pub fn scale(&self, target_len: i32) -> (r: Point)
        requires
            0 <= target_len,
        ensures
            r == self.scaled(target_len as int),
            self.x == 0 && self.y == 0 ==> r == *self,
            abs(r.x as int) <= target_len || r == *self,
            abs(r.y as int) <= target_len || r == *self,
    {
        let x: i64 = self.x as i64;
        let y: i64 = self.y as i64;
        let len: i64 = target_len as i64;
        proof {
            lemma_scaling_fits(x as int, y as int, len as int);
        }
        let (rx, ry) = scale_wide(x, y, len);
        proof {
            if !(x == 0 && y == 0) {
                crate::numeric::lemma_scaled_bounds(x as int, y as int, len as int);
            }
        }
        Point { x: rx as i32, y: ry as i32 }
    }
}

impl core::ops::Add for Point {
    type Output = Point;

    fn add(self, rhs: Point) -> (r: Point) {
        Point { x: self.x + rhs.x, y: self.y + rhs.y }
    }
}

impl vstd::std_specs::ops::AddSpecImpl for Point {
    open spec fn obeys_add_spec() -> bool {
        true
    }

    open spec fn add_req(self, rhs: Point) -> bool {
        &&& i32::MIN <= self.x + rhs.x <= i32::MAX
        &&& i32::MIN <= self.y + rhs.y <= i32::MAX
    }

    open spec fn add_spec(self, rhs: Point) -> Point {
        Point { x: (self.x + rhs.x) as i32, y: (self.y + rhs.y) as i32 }
    }
}

impl core::ops::Sub for Point {
    type Output = Point;

    fn sub(self, rhs: Point) -> (r: Point) {
        Point { x: self.x - rhs.x, y: self.y - rhs.y }
    }
}

impl vstd::std_specs::ops::SubSpecImpl for Point {
    open spec fn obeys_sub_spec() -> bool {
        true
    }

    open spec fn sub_req(self, rhs: Point) -> bool {
        &&& i32::MIN <= self.x - rhs.x <= i32::MAX
        &&& i32::MIN <= self.y - rhs.y <= i32::MAX
    }

    open spec fn sub_spec(self, rhs: Point) -> Point {
        Point { x: (self.x - rhs.x) as i32, y: (self.y - rhs.y) as i32 }
    }
}

impl core::ops::AddAssign for Point {
    fn add_assign(&mut self, rhs: Point)
        requires
            i32::MIN <= old(self).x + rhs.x <= i32::MAX,
            i32::MIN <= old(self).y + rhs.y <= i32::MAX,
        ensures
            final(self).x == old(self).x + rhs.x,
            final(self).y == old(self).y + rhs.y,
    {
        self.x += rhs.x;
        self.y += rhs.y;
    }
}

/// A square of a 33-bit number is not negative and fits in 66 bits.
pub proof fn lemma_square_range(x: int)
    by (nonlinear_arith)
    requires
        -0x1_0000_0000 <= x <= 0x1_0000_0000,
    ensures
        0 <= x * x <= 0x1_0000_0000_0000_0000,
{
}

/// Scaling a vector of 32-bit coordinates to a 31-bit length stays within
/// 128 bits.
pub proof fn lemma_scaling_fits(x: int, y: int, len: int)
    requires
        -0x8000_0000 <= x <= 0x8000_0000,
        -0x8000_0000 <= y <= 0x8000_0000,
        0 <= len <= 0x8000_0000,
    ensures
        (2 * len + 1) * (2 * len + 1) * (x * x + y * y) <= u128::MAX,
{
    assert(0 <= x * x <= 0x4000_0000_0000_0000) by (nonlinear_arith)
        requires
            -0x8000_0000 <= x <= 0x8000_0000,
    ;
    assert(0 <= y * y <= 0x4000_0000_0000_0000) by (nonlinear_arith)
        requires
            -0x8000_0000 <= y <= 0x8000_0000,
    ;
    assert((2 * len + 1) * (2 * len + 1) <= 0x1_0000_0001 * 0x1_0000_0001) by (nonlinear_arith)
        requires
            0 <= len <= 0x8000_0000,
    ;
    assert((2 * len + 1) * (2 * len + 1) * (x * x + y * y) <= (0x1_0000_0001 * 0x1_0000_0001)
        * 0x8000_0000_0000_0000) by (nonlinear_arith)
        requires
            0 <= (2 * len + 1) * (2 * len + 1) <= 0x1_0000_0001 * 0x1_0000_0001,
            0 <= x * x + y * y <= 0x8000_0000_0000_0000,
    ;
}

} // verus!
