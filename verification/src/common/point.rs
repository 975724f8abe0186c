use vstd::prelude::*;

verus! {

/// A position on the grid; `x` grows to the right and `y` grows downwards.
#[derive(Clone, Copy, Debug, Default, PartialEq, Eq, Structural)]
pub struct Point {
    pub x: i32,
    pub y: i32,
}

/// Both coordinates of `a + b` fit in an `i32`.
pub open spec fn can_add(a: Point, b: Point) -> bool {
    &&& i32::MIN <= a.x + b.x <= i32::MAX
    &&& i32::MIN <= a.y + b.y <= i32::MAX
}

/// Both coordinates of `a - b` fit in an `i32`.
pub open spec fn can_sub(a: Point, b: Point) -> bool {
    &&& i32::MIN <= a.x - b.x <= i32::MAX
    &&& i32::MIN <= a.y - b.y <= i32::MAX
}

impl Point {
    pub fn new(x: i32, y: i32) -> (r: Point)
        ensures
            r.x == x,
            r.y == y,
    {
        Point { x, y }
    }

    /// Builds a point from an `(x, y)` pair.
    pub fn from(pair: (i32, i32)) -> (r: Point)
        ensures
            r.x == pair.0,
            r.y == pair.1,
    {
        Point { x: pair.0, y: pair.1 }
    }

    pub fn add(self, rhs: Point) -> (r: Point)
        requires
            can_add(self, rhs),
        ensures
            r.x == self.x + rhs.x,
            r.y == self.y + rhs.y,
    {
        Point { x: self.x + rhs.x, y: self.y + rhs.y }
    }

    pub fn sub(self, rhs: Point) -> (r: Point)
        requires
            can_sub(self, rhs),
        ensures
            r.x == self.x - rhs.x,
            r.y == self.y - rhs.y,
    {
        Point { x: self.x - rhs.x, y: self.y - rhs.y }
    }

    pub fn add_assign(&mut self, rhs: Point)
        requires
            can_add(*old(self), rhs),
        ensures
            final(self).x == old(self).x + rhs.x,
            final(self).y == old(self).y + rhs.y,
    {
        self.x = self.x + rhs.x;
        self.y = self.y + rhs.y;
    }

    pub fn sub_assign(&mut self, rhs: Point)
        requires
            can_sub(*old(self), rhs),
        ensures
            final(self).x == old(self).x - rhs.x,
            final(self).y == old(self).y - rhs.y,
    {
        self.x = self.x - rhs.x;
        self.y = self.y - rhs.y;
    }

    /// Scales both coordinates by `k`.
    pub fn mul(self, k: i32) -> (r: Point)
        requires
            i32::MIN <= self.x * k <= i32::MAX,
            i32::MIN <= self.y * k <= i32::MAX,
        ensures
            r.x == self.x * k,
            r.y == self.y * k,
    {
        Point { x: self.x * k, y: self.y * k }
    }

    /// Scales both coordinates by `k`, in place.
    pub fn mul_assign(&mut self, k: i32)
        requires
            i32::MIN <= old(self).x * k <= i32::MAX,
            i32::MIN <= old(self).y * k <= i32::MAX,
        ensures
            final(self).x == old(self).x * k,
            final(self).y == old(self).y * k,
    {
        self.x = self.x * k;
        self.y = self.y * k;
    }

    /// Divides both coordinates by `k`, rounding toward zero.
    pub fn div(self, k: i32) -> (r: Point)
        requires
            k != 0,
            !(k == -1 && (self.x == i32::MIN || self.y == i32::MIN)),
        ensures
            r.x == truncated_div(self.x as int, k as int),
            r.y == truncated_div(self.y as int, k as int),
    {
        Point { x: quotient(self.x, k), y: quotient(self.y, k) }
    }

    /// Divides both coordinates by `k`, rounding toward zero, in place.
    pub fn div_assign(&mut self, k: i32)
        requires
            k != 0,
            !(k == -1 && (old(self).x == i32::MIN || old(self).y == i32::MIN)),
        ensures
            final(self).x == truncated_div(old(self).x as int, k as int),
            final(self).y == truncated_div(old(self).y as int, k as int),
    {
        self.x = quotient(self.x, k);
        self.y = quotient(self.y, k);
    }
}

/// `a / k`, rounded toward zero.
fn quotient(a: i32, k: i32) -> (r: i32)
    requires
        k != 0,
        !(k == -1 && a == i32::MIN),
    ensures
        r == truncated_div(a as int, k as int),
{
    if k > 0 {
        a / k
    } else if k == i32::MIN {
        if a == i32::MIN {
            1
        } else {
            proof {
                lemma_quotient_zero(magnitude(a as int));
            }
            0
        }
    } else {
        let d = -k;
        let q = a / d;
        proof {
            if d >= 2 {
                lemma_quotient_small(magnitude(a as int), d as int);
            }
        }
        -q
    }
}

/// Dividing less than 2^31 by 2^31 leaves nothing.
proof fn lemma_quotient_zero(x: int)
    by (nonlinear_arith)
    requires
        0 <= x < 0x8000_0000,
    ensures
        x / 0x8000_0000 == 0,
{
}

/// Dividing at most 2^31 by at least 2 leaves less than 2^31.
proof fn lemma_quotient_small(x: int, d: int)
    by (nonlinear_arith)
    requires
        0 <= x <= 0x8000_0000,
        d >= 2,
    ensures
        x / d < 0x8000_0000,
{
}

/// The size of `a`, without its sign.
pub open spec fn magnitude(a: int) -> int {
    if a < 0 {
        -a
    } else {
        a
    }
}

/// `a / b` rounded toward zero, as Rust divides integers.
pub open spec fn truncated_div(a: int, b: int) -> int {
    if (a >= 0) == (b > 0) {
        magnitude(a) / magnitude(b)
    } else {
        -(magnitude(a) / magnitude(b))
    }
}

} // verus!
