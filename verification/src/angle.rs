//! Angles, held as directions, and the rotation of vectors.
//!
//! An angle is the direction of an integer vector `(cos, sin)` other than
//! zero, measured counter-clockwise from the first axis; the length of the
//! vector does not matter. Twenty degrees, for one, is `(940, 342)` within a
//! thirtieth of a degree. Comparing two angles takes products only and does
//! not round. Turning a vector by an angle rounds once, where the product of
//! the two is brought back to the length of the vector.

use vstd::prelude::*;
use crate::normalize::{lemma_across, near_ray};
use crate::ratio::{
    divide, lemma_below_root, lemma_quotient_bound, lemma_quotient_error, lemma_ratio_length,
    lemma_stretched_squares, magnitude, ratio_axis,
};
use crate::root::{
    is_sqrt_floor, isqrt, lemma_sqrt_floor_exists, lemma_sqrt_floor_is, lemma_square_monotone,
    sqrt_floor,
};
use crate::vector::{lemma_norm_sq_positive, lemma_product_bound, Vec2, Vector};

verus! {

/// The largest coordinate, in absolute value, of an angle that serves as a
/// limit or that a vector is rotated by.
pub const ANGLE_MAX: i64 = 0x4000;

/// The largest coordinate, in absolute value, of a vector that is rotated or
/// whose bend against another is checked.
pub const SPAN_MAX: i64 = 0x4000_0000_0000;

/// The largest coordinate, in absolute value, of a vector whose angle to
/// another is taken as an [`Angle`].
pub const BETWEEN_MAX: i64 = 0x4000_0000;

/// By how much the product of a vector and an angle is stretched before it
/// is divided by the length of the angle.
pub const TURN_STRETCH: u128 = 0x8000_0000_0000;

/// An angle: the direction of `(cos, sin)`. The zero vector stands for no
/// turn at all.
#[derive(Clone, Copy, Debug, PartialEq, Eq, Structural)]
pub struct Angle {
    pub cos: i64,
    pub sin: i64,
}

impl View for Angle {
    type V = Vec2;

    open spec fn view(&self) -> Vec2 {
        Vec2 { x: self.cos as int, y: self.sin as int }
    }
}

/// The product of `v` and `a` as complex numbers: `v` turned by the angle
/// `a` exactly, and stretched by the length of `a`.
pub open spec fn product(v: Vec2, a: Vec2) -> Vec2 {
    Vec2 { x: v.x * a.x - v.y * a.y, y: v.x * a.y + v.y * a.x }
}

/// The vector `v` turned by the angle `a`: the product of the two, divided
/// by the length of `a`, each coordinate rounded towards zero as
/// [`ratio_axis`] says. An angle of zero turns nothing.
pub open spec fn rotated(v: Vec2, a: Vec2) -> Vec2 {
    if a.is_zero() {
        v
    } else {
        let p = product(v, a);
        let d = a.norm_sq() * (TURN_STRETCH as int * TURN_STRETCH as int);
        Vec2 {
            x: ratio_axis(p.x, TURN_STRETCH as int, d),
            y: ratio_axis(p.y, TURN_STRETCH as int, d),
        }
    }
}

/// The angle by which `a` has to be turned to point as `b` does,
/// counter-clockwise positive; it is zero where one of the two is zero.
pub open spec fn turn_between(a: Vec2, b: Vec2) -> Vec2 {
    Vec2 { x: a.dot(b), y: a.cross(b) }
}

/// The mirror image of an angle: the same turn, clockwise.
pub open spec fn mirrored(a: Vec2) -> Vec2 {
    Vec2 { x: a.x, y: -a.y }
}

/// `limit` can bound a turn: it is an angle between zero and a half turn,
/// both allowed, with coordinates of at most `ANGLE_MAX`.
pub open spec fn is_limit(limit: Vec2) -> bool {
    &&& !limit.is_zero()
    &&& limit.y >= 0
    &&& limit.within(ANGLE_MAX as int)
}

/// The turn `a`, taken without its sign, is at most the angle `limit`.
///
/// Both `(a.x, |a.y|)` and `limit` lie in the upper half plane, where the
/// vector product tells which of two directions comes first. It cannot tell
/// a half turn from no turn at all, so that case is named.
pub open spec fn within_limit(a: Vec2, limit: Vec2) -> bool {
    &&& a.x * limit.y - magnitude(a.y) * limit.x >= 0
    &&& !(a.y == 0 && a.x < 0 && limit.y == 0 && limit.x > 0)
}

/// The bound that a turn `a` beyond `limit` is cut back to: `limit` itself
/// where `a` turns counter-clockwise or by a half turn, its mirror image
/// where `a` turns clockwise.
pub open spec fn nearest_bound(a: Vec2, limit: Vec2) -> Vec2 {
    if a.y >= 0 {
        limit
    } else {
        mirrored(limit)
    }
}

/// The turn `a` cut back to `[-limit, limit]`.
pub open spec fn clamped(a: Vec2, limit: Vec2) -> Vec2 {
    if within_limit(a, limit) {
        a
    } else {
        nearest_bound(a, limit)
    }
}

/// The vector `r` is as long as a vector of squared length `n`, as far as
/// rounding allows: with `t` the rounded-down root of `n`, it is shorter
/// than `t + 2` and, where `t` is at least 2, at least `t - 2` long.
pub open spec fn near_norm(r: Vec2, n: int) -> bool {
    let t = sqrt_floor(n);
    &&& r.norm_sq() < (t + 2) * (t + 2)
    &&& t >= 2 ==> r.norm_sq() >= (t - 2) * (t - 2)
}

/// Whether the turn with the cosine `d` and the sine `c`, both stretched
/// alike, is at most `limit` without its sign.
pub fn turn_within(d: i128, c: i128, limit: &Angle) -> (b: bool)
    requires
        is_limit(limit@),
        -0x1_0000_0000_0000_0000_0000_0000 <= d <= 0x1_0000_0000_0000_0000_0000_0000,
        -0x1_0000_0000_0000_0000_0000_0000 <= c <= 0x1_0000_0000_0000_0000_0000_0000,
    ensures
        b == within_limit(Vec2 { x: d as int, y: c as int }, limit@),
{
    let m: i128 = if c >= 0 {
        c
    } else {
        -c
    };
    let lc: i128 = limit.cos as i128;
    let ls: i128 = limit.sin as i128;
    proof {
        lemma_product_bound(
            d as int,
            ls as int,
            0x1_0000_0000_0000_0000_0000_0000,
            ANGLE_MAX as int,
        );
        lemma_product_bound(
            m as int,
            lc as int,
            0x1_0000_0000_0000_0000_0000_0000,
            ANGLE_MAX as int,
        );
    }
    d * ls - m * lc >= 0 && !(c == 0 && d < 0 && limit.sin == 0 && limit.cos > 0)
}

impl Angle {
    /// The angle of the direction `(cos, sin)`.
    pub fn new(cos: i64, sin: i64) -> (a: Angle)
        ensures
            a@ == (Vec2 { x: cos as int, y: sin as int }),
    {
        Angle { cos, sin }
    }

    /// Whether this angle can bound a turn.
    pub fn is_limit(&self) -> (b: bool)
        ensures
            b == is_limit(self@),
    {
        !(self.cos == 0 && self.sin == 0) && self.sin >= 0 && self.sin <= ANGLE_MAX
            && -ANGLE_MAX <= self.cos && self.cos <= ANGLE_MAX
    }

    /// Whether this turn, taken without its sign, is at most `limit`.
    pub fn within(&self, limit: &Angle) -> (b: bool)
        requires
            is_limit(limit@),
        ensures
            b == within_limit(self@, limit@),
    {
        turn_within(self.cos as i128, self.sin as i128, limit)
    }

    /// This turn cut back to `[-limit, limit]`.
    pub fn clamp(&self, limit: &Angle) -> (r: Angle)
        requires
            is_limit(limit@),
        ensures
            r@ == clamped(self@, limit@),
    {
        if self.within(limit) {
            *self
        } else if self.sin >= 0 {
            *limit
        } else {
            Angle { cos: limit.cos, sin: -limit.sin }
        }
    }
}

/// The product of `direction` and `angle` as complex numbers: `direction`
/// turned by `angle` exactly, and stretched by the length of `angle`.
pub fn turn_and_stretch(direction: Vector, angle: Angle) -> (r: Vector)
    requires
        direction@.within(SPAN_MAX as int),
        angle@.within(ANGLE_MAX as int),
    ensures
        r@ == product(direction@, angle@),
        r@.within(2 * SPAN_MAX * ANGLE_MAX),
{
    proof {
        lemma_product_bound(direction.x as int, angle.cos as int, SPAN_MAX as int, ANGLE_MAX as int);
        lemma_product_bound(direction.y as int, angle.sin as int, SPAN_MAX as int, ANGLE_MAX as int);
        lemma_product_bound(direction.x as int, angle.sin as int, SPAN_MAX as int, ANGLE_MAX as int);
        lemma_product_bound(direction.y as int, angle.cos as int, SPAN_MAX as int, ANGLE_MAX as int);
    }
    Vector {
        x: direction.x * angle.cos - direction.y * angle.sin,
        y: direction.x * angle.sin + direction.y * angle.cos,
    }
}

/// What goes into the two divisions of `rotated(v, a)`: the stretched
/// squared length `d` of the angle and its root `s`.
pub proof fn lemma_rotated_parts(v: Vec2, a: Vec2) -> (parts: (int, int))
    requires
        !a.is_zero(),
    ensures
        ({
            let (d, s) = parts;
            let w = TURN_STRETCH as int;
            let p = product(v, a);
            let pa = magnitude(p.x);
            let pb = magnitude(p.y);
            &&& d == a.norm_sq() * (w * w)
            &&& is_sqrt_floor(d, s)
            &&& s == sqrt_floor(d)
            &&& w <= s
            &&& (pa * w) * (pa * w) + (pb * w) * (pb * w) == d * v.norm_sq()
            &&& p.norm_sq() == v.norm_sq() * a.norm_sq()
            &&& rotated(v, a).x == (if p.x >= 0 { (pa * w) / s } else { -((pa * w) / s) })
            &&& rotated(v, a).y == (if p.y >= 0 { (pb * w) / s } else { -((pb * w) / s) })
        }),
{
    let w = TURN_STRETCH as int;
    let p = product(v, a);
    let pa = magnitude(p.x);
    let pb = magnitude(p.y);
    let d = a.norm_sq() * (w * w);
    lemma_norm_sq_positive(a);
    lemma_product_norm(v, a);
    assert(d >= w * w) by (nonlinear_arith)
        requires
            d == a.norm_sq() * (w * w),
            a.norm_sq() >= 1,
    ;
    lemma_sqrt_floor_exists(d);
    let s = sqrt_floor(d);
    lemma_below_root(w, d, s);
    assert(pa * pa + pb * pb == p.norm_sq()) by (nonlinear_arith)
        requires
            pa == p.x || pa == -p.x,
            pb == p.y || pb == -p.y,
            p.norm_sq() == p.x * p.x + p.y * p.y,
    ;
    lemma_stretched_squares(pa, pb, w, p.norm_sq());
    assert((v.norm_sq() * a.norm_sq()) * (w * w) == (a.norm_sq() * (w * w)) * v.norm_sq())
        by (nonlinear_arith);
    (d, s)
}

/// The product of two vectors is as long as the one times the other.
pub proof fn lemma_product_norm(v: Vec2, a: Vec2)
    ensures
        product(v, a).norm_sq() == v.norm_sq() * a.norm_sq(),
{
    let r = product(v, a);
    let p = v.x * a.x;
    let q = v.y * a.y;
    let u = v.x * a.y;
    let w = v.y * a.x;
    assert((p - q) * (p - q) + (u + w) * (u + w) == p * p + q * q + u * u + w * w - 2 * (p * q)
        + 2 * (u * w)) by (nonlinear_arith);
    assert(p * q == u * w) by (nonlinear_arith)
        requires
            p == v.x * a.x,
            q == v.y * a.y,
            u == v.x * a.y,
            w == v.y * a.x,
    ;
    assert(p * p == (v.x * v.x) * (a.x * a.x)) by (nonlinear_arith)
        requires
            p == v.x * a.x,
    ;
    assert(q * q == (v.y * v.y) * (a.y * a.y)) by (nonlinear_arith)
        requires
            q == v.y * a.y,
    ;
    assert(u * u == (v.x * v.x) * (a.y * a.y)) by (nonlinear_arith)
        requires
            u == v.x * a.y,
    ;
    assert(w * w == (v.y * v.y) * (a.x * a.x)) by (nonlinear_arith)
        requires
            w == v.y * a.x,
    ;
    assert((v.x * v.x + v.y * v.y) * (a.x * a.x + a.y * a.y) == (v.x * v.x) * (a.x * a.x) + (v.x
        * v.x) * (a.y * a.y) + (v.y * v.y) * (a.x * a.x) + (v.y * v.y) * (a.y * a.y))
        by (nonlinear_arith);
}

/// Turning a vector by an angle makes the turn from the one to the product
/// of the two that angle: the turn is the angle, stretched by the squared
/// length of the vector.
pub proof fn lemma_turn_of_product(v: Vec2, a: Vec2)
    ensures
        turn_between(v, product(v, a)) == (Vec2 { x: v.norm_sq() * a.x, y: v.norm_sq() * a.y }),
        product(v, a).norm_sq() == v.norm_sq() * a.norm_sq(),
{
    let r = product(v, a);
    assert(v.x * r.x + v.y * r.y == (v.x * v.x + v.y * v.y) * a.x) by (nonlinear_arith)
        requires
            r.x == v.x * a.x - v.y * a.y,
            r.y == v.x * a.y + v.y * a.x,
    ;
    assert(v.x * r.y - v.y * r.x == (v.x * v.x + v.y * v.y) * a.y) by (nonlinear_arith)
        requires
            r.x == v.x * a.x - v.y * a.y,
            r.y == v.x * a.y + v.y * a.x,
    ;
    lemma_product_norm(v, a);
}

/// Rotation keeps the length: a vector that has been turned is as long as
/// it was, within two grid steps of its rounded-down length.
pub proof fn lemma_rotated_length(v: Vec2, a: Vec2)
    requires
        v.within(SPAN_MAX as int),
    ensures
        near_norm(rotated(v, a), v.norm_sq()),
{
    let n = v.norm_sq();
    lemma_norm_sq_positive(v);
    lemma_sqrt_floor_exists(n);
    let t = sqrt_floor(n);
    lemma_product_bound(v.x, v.x, SPAN_MAX as int, SPAN_MAX as int);
    lemma_product_bound(v.y, v.y, SPAN_MAX as int, SPAN_MAX as int);
    if t >= TURN_STRETCH - 1 {
        lemma_square_monotone(TURN_STRETCH - 1, t);
    }
    if a.is_zero() {
        // Nothing is turned: the vector is as long as it is.
        assert((t + 1) * (t + 1) < (t + 2) * (t + 2)) by (nonlinear_arith)
            requires
                0 <= t,
        ;
        if t >= 2 {
            lemma_square_monotone(t - 2, t);
        }
    } else {
        let (d, s) = lemma_rotated_parts(v, a);
        let w = TURN_STRETCH as int;
        let p = product(v, a);
        let pa = magnitude(p.x);
        let pb = magnitude(p.y);
        let r = rotated(v, a);
        let qa = (pa * w) / s;
        let qb = (pb * w) / s;
        lemma_ratio_length(pa, pb, w, d, s, n, t, t + 1);
        assert(r.norm_sq() == qa * qa + qb * qb) by (nonlinear_arith)
            requires
                r.x == qa || r.x == -qa,
                r.y == qb || r.y == -qb,
                r.norm_sq() == r.x * r.x + r.y * r.y,
        ;
    }
}

/// Rotation turns by the angle: a vector that has been turned lies along
/// the product of the vector and the angle, within one grid step across; and
/// the turn from the vector to that product is the angle exactly.
pub proof fn lemma_rotated_direction(v: Vec2, a: Vec2)
    requires
        !a.is_zero(),
    ensures
        near_ray(product(v, a), rotated(v, a)),
        turn_between(v, product(v, a)) == (Vec2 { x: v.norm_sq() * a.x, y: v.norm_sq() * a.y }),
{
    let (d, s) = lemma_rotated_parts(v, a);
    lemma_across(product(v, a), rotated(v, a), TURN_STRETCH as int, s);
    lemma_turn_of_product(v, a);
}

/// Turning by no angle changes nothing: an angle along the first axis, of
/// whatever length, leaves every vector as it is.
pub proof fn lemma_rotated_by_no_turn(v: Vec2, k: int)
    requires
        k > 0,
    ensures
        rotated(v, Vec2 { x: k, y: 0 }) == v,
{
    let a = Vec2 { x: k, y: 0 };
    let w = TURN_STRETCH as int;
    let p = product(v, a);
    let s = k * w;
    assert(p.x == v.x * k && p.y == v.y * k) by (nonlinear_arith)
        requires
            p.x == v.x * a.x - v.y * a.y,
            p.y == v.x * a.y + v.y * a.x,
            a.x == k,
            a.y == 0,
    ;
    assert(a.norm_sq() == k * k) by (nonlinear_arith)
        requires
            a.norm_sq() == a.x * a.x + a.y * a.y,
            a.x == k,
            a.y == 0,
    ;
    assert(s * s == (k * k) * (w * w)) by (nonlinear_arith)
        requires
            s == k * w,
    ;
    assert(0 < s && s * s < (s + 1) * (s + 1)) by (nonlinear_arith)
        requires
            s == k * w,
            k > 0,
            w > 0,
    ;
    lemma_sqrt_floor_is((k * k) * (w * w), s);
    lemma_exact_quotient(v.x, k, w);
    lemma_exact_quotient(v.y, k, w);
}

/// A coordinate stretched by `k` and divided by `k` is the coordinate.
proof fn lemma_exact_quotient(c: int, k: int, w: int)
    requires
        k > 0,
        w > 0,
    ensures
        crate::ratio::quotient_axis(c * k, w, k * w) == c,
{
    let s = k * w;
    let a = magnitude(c);
    assert(0 < s) by (nonlinear_arith)
        requires
            s == k * w,
            k > 0,
            w > 0,
    ;
    assert(c >= 0 ==> (c * k) * w == a * s && c * k >= 0) by (nonlinear_arith)
        requires
            s == k * w,
            a == magnitude(c),
            k > 0,
    ;
    assert(c < 0 ==> (-(c * k)) * w == a * s && c * k < 0) by (nonlinear_arith)
        requires
            s == k * w,
            a == magnitude(c),
            k > 0,
    ;
    vstd::arithmetic::div_mod::lemma_div_by_multiple(a, s);
}

/// Turns `direction` by `angle`, counter-clockwise where the sine of the
/// angle is positive, and keeps its length.
///
/// The length of `angle` does not matter, and an angle of zero turns
/// nothing. Each coordinate of the result is rounded towards zero: the
/// result is as long as `direction` within two grid steps, and points in the
/// turned direction within one grid step across.
pub fn rotate(direction: Vector, angle: Angle) -> (r: Vector)
    requires
        direction@.within(SPAN_MAX as int),
        angle@.within(ANGLE_MAX as int),
    ensures
        r@ == rotated(direction@, angle@),
        near_norm(r@, direction@.norm_sq()),
        r@.within(2 * SPAN_MAX),
{
    proof {
        lemma_rotated_length(direction@, angle@);
        lemma_rotate_bound(direction@, rotated(direction@, angle@));
    }
    if angle.cos == 0 && angle.sin == 0 {
        return direction;
    }
    let p = turn_and_stretch(direction, angle);
    let ghost parts = lemma_rotated_parts(direction@, angle@);
    let na: u128 = Vector { x: angle.cos, y: angle.sin }.norm_sq();
    proof {
        lemma_product_bound(angle.cos as int, angle.cos as int, ANGLE_MAX as int, ANGLE_MAX as int);
        lemma_product_bound(angle.sin as int, angle.sin as int, ANGLE_MAX as int, ANGLE_MAX as int);
        lemma_norm_sq_positive(angle@);
        assert(na == angle@.norm_sq());
        assert(na * (TURN_STRETCH * TURN_STRETCH) <= 0x2000_0000 * (0x8000_0000_0000
            * 0x8000_0000_0000)) by (nonlinear_arith)
            requires
                0 <= na <= 0x2000_0000,
                TURN_STRETCH == 0x8000_0000_0000,
        ;
        let w = TURN_STRETCH as int;
        let pa = magnitude(p.x as int);
        let pb = magnitude(p.y as int);
        assert(pa * w <= 0x2000_0000_0000_0000 * 0x8000_0000_0000 && pb * w
            <= 0x2000_0000_0000_0000 * 0x8000_0000_0000) by (nonlinear_arith)
            requires
                0 <= pa <= 0x2000_0000_0000_0000,
                0 <= pb <= 0x2000_0000_0000_0000,
                w == 0x8000_0000_0000,
        ;
        assert(pa * w <= parts.1 * pa && pb * w <= parts.1 * pb) by (nonlinear_arith)
            requires
                w <= parts.1,
                0 <= pa,
                0 <= pb,
        ;
        lemma_quotient_bound(pa, w, parts.1, (pa * w) / parts.1, pa);
        lemma_quotient_bound(pb, w, parts.1, (pb * w) / parts.1, pb);
    }
    let s: u64 = isqrt(na * (TURN_STRETCH * TURN_STRETCH));
    Vector { x: divide(p.x, TURN_STRETCH, s), y: divide(p.y, TURN_STRETCH, s) }
}

/// A vector about as long as one within `SPAN_MAX` is within twice that.
proof fn lemma_rotate_bound(v: Vec2, r: Vec2)
    requires
        v.within(SPAN_MAX as int),
        near_norm(r, v.norm_sq()),
    ensures
        r.within(2 * SPAN_MAX),
{
    let n = v.norm_sq();
    lemma_norm_sq_positive(v);
    lemma_sqrt_floor_exists(n);
    let t = sqrt_floor(n);
    lemma_product_bound(v.x, v.x, SPAN_MAX as int, SPAN_MAX as int);
    lemma_product_bound(v.y, v.y, SPAN_MAX as int, SPAN_MAX as int);
    if t >= 2 * SPAN_MAX - 2 {
        lemma_square_monotone(2 * SPAN_MAX - 2, t);
    }
    let x = magnitude(r.x);
    let y = magnitude(r.y);
    assert(x * x <= r.norm_sq() && y * y <= r.norm_sq()) by (nonlinear_arith)
        requires
            x == r.x || x == -r.x,
            y == r.y || y == -r.y,
            r.norm_sq() == r.x * r.x + r.y * r.y,
    ;
    if x >= t + 2 {
        lemma_square_monotone(t + 2, x);
    }
    if y >= t + 2 {
        lemma_square_monotone(t + 2, y);
    }
}

/// The angle by which `a` has to be turned to point as `b` does,
/// counter-clockwise positive.
pub fn angle_between(a: Vector, b: Vector) -> (r: Angle)
    requires
        a@.within(BETWEEN_MAX as int),
        b@.within(BETWEEN_MAX as int),
    ensures
        r@ == turn_between(a@, b@),
        r@.within(2 * BETWEEN_MAX * BETWEEN_MAX),
{
    proof {
        lemma_product_bound(a.x as int, b.x as int, BETWEEN_MAX as int, BETWEEN_MAX as int);
        lemma_product_bound(a.y as int, b.y as int, BETWEEN_MAX as int, BETWEEN_MAX as int);
        lemma_product_bound(a.x as int, b.y as int, BETWEEN_MAX as int, BETWEEN_MAX as int);
        lemma_product_bound(a.y as int, b.x as int, BETWEEN_MAX as int, BETWEEN_MAX as int);
    }
    Angle { cos: a.x * b.x + a.y * b.y, sin: a.x * b.y - a.y * b.x }
}

/// One coordinate of a vector that has been turned and turned back. The
/// first turn left the errors `e1` and `e2` in the two coordinates; they come
/// back through the coefficients `alpha` and `beta` of the angle, together
/// with the error of the second turn and that of the root.
proof fn lemma_turned_back_axis(
    vc: int,
    na: int,
    w: int,
    d: int,
    s: int,
    e1: int,
    e2: int,
    alpha: int,
    beta: int,
    pp: int,
    rc: int,
)
    requires
        0 < w,
        16 <= s,
        is_sqrt_floor(d, s),
        d == na * (w * w),
        alpha * alpha + beta * beta == na,
        -(s - 1) <= e1 <= s - 1,
        -(s - 1) <= e2 <= s - 1,
        pp * s == w * (vc * na) - (e1 * alpha + e2 * beta),
        -(s - 1) <= pp * w - rc * s <= s - 1,
        -s <= 2 * vc <= s,
    ensures
        -3 <= rc - vc <= 3,
{
    let ma = magnitude(alpha);
    let mb = magnitude(beta);
    let g = w * (ma + mb);
    // The coefficients are short: g^2 <= 2 * d, so 2 * g <= 3 * s.
    assert((ma + mb) * (ma + mb) <= 2 * na) by (nonlinear_arith)
        requires
            alpha * alpha + beta * beta == na,
            ma == alpha || ma == -alpha,
            mb == beta || mb == -beta,
    ;
    assert(g * g == (w * w) * ((ma + mb) * (ma + mb))) by (nonlinear_arith)
        requires
            g == w * (ma + mb),
    ;
    assert(g * g <= 2 * d) by (nonlinear_arith)
        requires
            g * g == (w * w) * ((ma + mb) * (ma + mb)),
            (ma + mb) * (ma + mb) <= 2 * na,
            d == na * (w * w),
            0 < w,
    ;
    assert(d <= s * s + 2 * s) by (nonlinear_arith)
        requires
            d < (s + 1) * (s + 1),
    ;
    assert(0 <= g) by (nonlinear_arith)
        requires
            g == w * (ma + mb),
            0 < w,
            0 <= ma,
            0 <= mb,
    ;
    assert(2 * g <= 3 * s) by (nonlinear_arith)
        requires
            g * g <= 2 * d,
            d <= s * s + 2 * s,
            16 <= s,
            0 <= g,
    ;
    // What comes back of the errors of the first turn.
    let e = e1 * alpha + e2 * beta;
    assert(-((s - 1) * (ma + mb)) <= e <= (s - 1) * (ma + mb)) by (nonlinear_arith)
        requires
            e == e1 * alpha + e2 * beta,
            -(s - 1) <= e1 <= s - 1,
            -(s - 1) <= e2 <= s - 1,
            (ma == alpha && ma >= 0) || (ma == -alpha && ma >= 0),
            (mb == beta && mb >= 0) || (mb == -beta && mb >= 0),
    ;
    let we = w * e;
    assert(-((s - 1) * g) <= we <= (s - 1) * g) by (nonlinear_arith)
        requires
            we == w * e,
            g == w * (ma + mb),
            -((s - 1) * (ma + mb)) <= e <= (s - 1) * (ma + mb),
            0 < w,
    ;
    assert(2 * ((s - 1) * g) <= 3 * (s * s)) by (nonlinear_arith)
        requires
            2 * g <= 3 * s,
            0 <= g,
            16 <= s,
    ;
    // The second turn: rc * s^2 == vc * d - w * e - e' * s.
    let e3 = pp * w - rc * s;
    let x = (rc - vc) * (s * s);
    assert(rc * (s * s) == w * (pp * s) - e3 * s) by (nonlinear_arith)
        requires
            e3 == pp * w - rc * s,
    ;
    assert(w * (pp * s) == vc * d - we) by (nonlinear_arith)
        requires
            pp * s == w * (vc * na) - e,
            d == na * (w * w),
            we == w * e,
    ;
    let rho = d - s * s;
    assert(x == vc * rho - we - e3 * s) by (nonlinear_arith)
        requires
            x == (rc - vc) * (s * s),
            rc * (s * s) == w * (pp * s) - e3 * s,
            w * (pp * s) == vc * d - we,
            rho == d - s * s,
    ;
    assert(-(s * s) <= vc * rho <= s * s) by (nonlinear_arith)
        requires
            -s <= 2 * vc <= s,
            0 <= rho <= 2 * s,
    ;
    assert(-(s * s) <= e3 * s <= s * s) by (nonlinear_arith)
        requires
            -(s - 1) <= e3 <= s - 1,
            16 <= s,
    ;
    assert(-7 * (s * s) <= 2 * x <= 7 * (s * s));
    assert(-3 <= rc - vc <= 3) by (nonlinear_arith)
        requires
            x == (rc - vc) * (s * s),
            -7 * (s * s) <= 2 * x <= 7 * (s * s),
            16 <= s,
    ;
}

/// Turning back undoes the turn: a vector that has been turned by an angle
/// and by its mirror image is where it was, within three grid steps in
/// each coordinate.
pub proof fn lemma_rotated_back(v: Vec2, a: Vec2)
    requires
        v.within(SPAN_MAX as int),
    ensures
        rotated(rotated(v, a), mirrored(a)).minus(v).within(3),
{
    if !a.is_zero() {
        let b = mirrored(a);
        let w = TURN_STRETCH as int;
        let (d, s) = lemma_rotated_parts(v, a);
        let r = rotated(v, a);
        let (d2, s2) = lemma_rotated_parts(r, b);
        assert(b.norm_sq() == a.norm_sq()) by (nonlinear_arith)
            requires
                b.x == a.x,
                b.y == -a.y,
                b.norm_sq() == b.x * b.x + b.y * b.y,
                a.norm_sq() == a.x * a.x + a.y * a.y,
        ;
        let p = product(v, a);
        let pp = product(r, b);
        let back = rotated(r, b);
        lemma_quotient_error(p.x, w, s);
        lemma_quotient_error(p.y, w, s);
        lemma_quotient_error(pp.x, w, s);
        lemma_quotient_error(pp.y, w, s);
        let e1 = p.x * w - r.x * s;
        let e2 = p.y * w - r.y * s;
        let na = a.norm_sq();
        lemma_product_back(v, a);
        lemma_error_back(r.x, r.y, p.x, p.y, e1, e2, w, s, a.x, a.y, v.x * na);
        lemma_error_back(r.x, r.y, p.x, p.y, e1, e2, w, s, -a.y, a.x, v.y * na);
        assert(pp.x == r.x * a.x + r.y * a.y) by (nonlinear_arith)
            requires
                pp.x == r.x * b.x - r.y * b.y,
                b.x == a.x,
                b.y == -a.y,
        ;
        assert(pp.y == r.x * (-a.y) + r.y * a.x) by (nonlinear_arith)
            requires
                pp.y == r.x * b.y + r.y * b.x,
                b.x == a.x,
                b.y == -a.y,
        ;
        assert((-a.y) * (-a.y) + a.x * a.x == na) by (nonlinear_arith)
            requires
                na == a.x * a.x + a.y * a.y,
        ;
        lemma_turned_back_axis(v.x, na, w, d, s, e1, e2, a.x, a.y, pp.x, back.x);
        lemma_turned_back_axis(v.y, na, w, d, s, e1, e2, -a.y, a.x, pp.y, back.y);
    }
}

/// The product of a product with the mirror image of the angle is the
/// vector, stretched by the squared length of the angle.
proof fn lemma_product_back(v: Vec2, a: Vec2)
    ensures
        product(v, a).x * a.x + product(v, a).y * a.y == v.x * a.norm_sq(),
        product(v, a).x * (-a.y) + product(v, a).y * a.x == v.y * a.norm_sq(),
{
    let p = product(v, a);
    assert(p.x * a.x + p.y * a.y == v.x * (a.x * a.x + a.y * a.y)) by (nonlinear_arith)
        requires
            p.x == v.x * a.x - v.y * a.y,
            p.y == v.x * a.y + v.y * a.x,
    ;
    assert(p.x * (-a.y) + p.y * a.x == v.y * (a.x * a.x + a.y * a.y)) by (nonlinear_arith)
        requires
            p.x == v.x * a.x - v.y * a.y,
            p.y == v.x * a.y + v.y * a.x,
    ;
}

/// How the errors of a turn come back through the coefficients `alpha` and
/// `beta` of the next.
proof fn lemma_error_back(
    rx: int,
    ry: int,
    px: int,
    py: int,
    e1: int,
    e2: int,
    w: int,
    s: int,
    alpha: int,
    beta: int,
    whole: int,
)
    requires
        e1 == px * w - rx * s,
        e2 == py * w - ry * s,
        px * alpha + py * beta == whole,
    ensures
        (rx * alpha + ry * beta) * s == w * whole - (e1 * alpha + e2 * beta),
{
    assert((rx * alpha + ry * beta) * s == (rx * s) * alpha + (ry * s) * beta) by (nonlinear_arith);
    assert((rx * s) * alpha == (px * w) * alpha - e1 * alpha) by (nonlinear_arith)
        requires
            e1 == px * w - rx * s,
    ;
    assert((ry * s) * beta == (py * w) * beta - e2 * beta) by (nonlinear_arith)
        requires
            e2 == py * w - ry * s,
    ;
    assert((px * w) * alpha + (py * w) * beta == w * (px * alpha + py * beta)) by (nonlinear_arith);
}

} // verus!
