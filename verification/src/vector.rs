//! Vectors and points of the integer grid.

use vstd::prelude::*;

verus! {

/// The largest coordinate, in absolute value, that the arithmetic of this
/// crate accepts in a vector.
pub const COORD_MAX: i64 = 0x3fff_ffff_ffff_ffff;

/// A vector of the plane with integer coordinates: what a [`Vector`] stands
/// for in contracts.
pub struct Vec2 {
    pub x: int,
    pub y: int,
}

impl Vec2 {
    /// The vector without length.
    pub open spec fn zero() -> Vec2 {
        Vec2 { x: 0, y: 0 }
    }

    /// The vector has no length, and so no direction.
    pub open spec fn is_zero(self) -> bool {
        self.x == 0 && self.y == 0
    }

    /// The sum of two vectors; a point moved by a vector.
    pub open spec fn plus(self, other: Vec2) -> Vec2 {
        Vec2 { x: self.x + other.x, y: self.y + other.y }
    }

    /// The difference of two vectors; the vector that leads from the point
    /// `other` to this point.
    pub open spec fn minus(self, other: Vec2) -> Vec2 {
        Vec2 { x: self.x - other.x, y: self.y - other.y }
    }

    /// The scalar product.
    pub open spec fn dot(self, other: Vec2) -> int {
        self.x * other.x + self.y * other.y
    }

    /// The third coordinate of the vector product: positive where `other`
    /// lies counter-clockwise of `self`.
    pub open spec fn cross(self, other: Vec2) -> int {
        self.x * other.y - self.y * other.x
    }

    /// The square of the length.
    pub open spec fn norm_sq(self) -> int {
        self.x * self.x + self.y * self.y
    }

    /// Both coordinates are at most `bound` in absolute value.
    pub open spec fn within(self, bound: int) -> bool {
        -bound <= self.x <= bound && -bound <= self.y <= bound
    }
}

/// A vector, or a point, of the grid.
#[derive(Clone, Copy, Debug, PartialEq, Eq, Structural)]
pub struct Vector {
    pub x: i64,
    pub y: i64,
}

impl View for Vector {
    type V = Vec2;

    open spec fn view(&self) -> Vec2 {
        Vec2 { x: self.x as int, y: self.y as int }
    }
}

impl Vector {
    /// The vector with the coordinates `x` and `y`.
    pub fn new(x: i64, y: i64) -> (v: Vector)
        ensures
            v@ == (Vec2 { x: x as int, y: y as int }),
    {
        Vector { x, y }
    }

    /// The vector without length.
    pub fn zero() -> (v: Vector)
        ensures
            v@ == Vec2::zero(),
    {
        Vector { x: 0, y: 0 }
    }

    /// Whether the vector has no length, and so no direction.
    pub fn is_zero(&self) -> (b: bool)
        ensures
            b == self@.is_zero(),
    {
        self.x == 0 && self.y == 0
    }

    /// Whether both coordinates are at most `bound` in absolute value. No
    /// coordinate is below a negative bound.
    pub fn is_within(&self, bound: i64) -> (b: bool)
        ensures
            b == self@.within(bound as int),
    {
        bound >= 0 && -bound <= self.x && self.x <= bound && -bound <= self.y && self.y <= bound
    }

    /// The sum of two vectors; a point moved by a vector.
    pub fn plus(&self, other: &Vector) -> (v: Vector)
        requires
            self@.within(COORD_MAX as int),
            other@.within(COORD_MAX as int),
        ensures
            v@ == self@.plus(other@),
    {
        Vector { x: self.x + other.x, y: self.y + other.y }
    }

    /// The difference of two vectors; the vector that leads from the point
    /// `other` to this point.
    pub fn minus(&self, other: &Vector) -> (v: Vector)
        requires
            self@.within(COORD_MAX as int),
            other@.within(COORD_MAX as int),
        ensures
            v@ == self@.minus(other@),
    {
        Vector { x: self.x - other.x, y: self.y - other.y }
    }

    /// The scalar product.
    pub fn dot(&self, other: &Vector) -> (d: i128)
        requires
            self@.within(COORD_MAX as int),
            other@.within(COORD_MAX as int),
        ensures
            d == self@.dot(other@),
    {
        let ax: i128 = self.x as i128;
        let ay: i128 = self.y as i128;
        let bx: i128 = other.x as i128;
        let by: i128 = other.y as i128;
        proof {
            lemma_product_bound(ax as int, bx as int, COORD_MAX as int, COORD_MAX as int);
            lemma_product_bound(ay as int, by as int, COORD_MAX as int, COORD_MAX as int);
        }
        ax * bx + ay * by
    }

    /// The third coordinate of the vector product.
    pub fn cross(&self, other: &Vector) -> (c: i128)
        requires
            self@.within(COORD_MAX as int),
            other@.within(COORD_MAX as int),
        ensures
            c == self@.cross(other@),
    {
        let ax: i128 = self.x as i128;
        let ay: i128 = self.y as i128;
        let bx: i128 = other.x as i128;
        let by: i128 = other.y as i128;
        proof {
            lemma_product_bound(ax as int, by as int, COORD_MAX as int, COORD_MAX as int);
            lemma_product_bound(ay as int, bx as int, COORD_MAX as int, COORD_MAX as int);
        }
        ax * by - ay * bx
    }

    /// The square of the length.
    pub fn norm_sq(&self) -> (n: u128)
        requires
            self@.within(COORD_MAX as int),
        ensures
            n == self@.norm_sq(),
    {
        let ax: i128 = self.x as i128;
        let ay: i128 = self.y as i128;
        proof {
            lemma_product_bound(ax as int, ax as int, COORD_MAX as int, COORD_MAX as int);
            lemma_product_bound(ay as int, ay as int, COORD_MAX as int, COORD_MAX as int);
            assert(ax * ax >= 0) by (nonlinear_arith);
            assert(ay * ay >= 0) by (nonlinear_arith);
        }
        (ax * ax + ay * ay) as u128
    }
}

/// A product is bounded by the product of the bounds of its factors.
pub proof fn lemma_product_bound(a: int, b: int, p: int, q: int)
    requires
        -p <= a <= p,
        -q <= b <= q,
    ensures
        -(p * q) <= a * b <= p * q,
{
    assert(-(p * q) <= a * b <= p * q) by (nonlinear_arith)
        requires
            -p <= a <= p,
            -q <= b <= q,
    ;
}

/// A vector other than zero has a positive squared length.
pub proof fn lemma_norm_sq_positive(v: Vec2)
    ensures
        v.norm_sq() >= 0,
        v.is_zero() <==> v.norm_sq() == 0,
{
    assert(v.x * v.x >= 0 && v.y * v.y >= 0) by (nonlinear_arith);
    assert(v.x != 0 ==> v.x * v.x > 0) by (nonlinear_arith);
    assert(v.y != 0 ==> v.y * v.y > 0) by (nonlinear_arith);
}

} // verus!
