//! Bringing a vector to a given length.

use vstd::prelude::*;
use crate::ratio::{
    divide, lemma_below_root, lemma_quotient, lemma_quotient_bound, lemma_ratio_across,
    lemma_ratio_length, lemma_stretched_squares, magnitude, ratio_axis,
};
use crate::root::{is_sqrt_floor, isqrt, lemma_sqrt_floor_exists, lemma_sqrt_floor_is, sqrt_floor};
use crate::vector::{lemma_norm_sq_positive, lemma_product_bound, Vec2, Vector, COORD_MAX};

verus! {

/// The largest length that a vector is brought to.
pub const LENGTH_MAX: u32 = 0xffff_ffff;

/// By how much a vector of squared length `n` is stretched before the root
/// is taken, so that the root is longer than every length: short vectors by
/// `2^32`, the others not at all.
pub open spec fn stretch(n: int) -> int {
    if n < 0x1_0000_0000_0000_0000 {
        0x1_0000_0000
    } else {
        1
    }
}

/// The vector `v` brought to the length `len`; the zero vector where `v` is
/// zero or `len` is not positive. Each coordinate `c` becomes
/// `c * len / |v|`, rounded towards zero as [`ratio_axis`] says.
pub open spec fn normalized(v: Vec2, len: int) -> Vec2 {
    if v.is_zero() || len <= 0 {
        Vec2::zero()
    } else {
        let k = stretch(v.norm_sq());
        Vec2 {
            x: ratio_axis(v.x, len * k, v.norm_sq() * (k * k)),
            y: ratio_axis(v.y, len * k, v.norm_sq() * (k * k)),
        }
    }
}

/// The vector `v` is `len` long, as far as rounding allows: it is shorter
/// than `len + 1` and, where `len` is at least 2, at least `len - 2` long.
pub open spec fn near_length(v: Vec2, len: int) -> bool {
    &&& v.norm_sq() < (len + 1) * (len + 1)
    &&& len >= 2 ==> v.norm_sq() >= (len - 2) * (len - 2)
}

/// The vector `r` points as `w` does, as far as rounding allows: it lies on
/// the side of `w`, at most one grid step away from the line through the
/// origin along `w`.
pub open spec fn near_ray(w: Vec2, r: Vec2) -> bool {
    &&& w.dot(r) >= 0
    &&& w.cross(r) * w.cross(r) <= w.norm_sq()
}

/// What goes into the two divisions of `normalized(v, len)`: the stretched
/// squared length `d`, its root `s`, which is longer than `len`, and the
/// factor `w` of the dividends.
pub proof fn lemma_normalized_parts(v: Vec2, len: int) -> (parts: (int, int, int))
    requires
        !v.is_zero(),
        0 < len <= LENGTH_MAX,
    ensures
        ({
            let (w, d, s) = parts;
            let a = magnitude(v.x);
            let b = magnitude(v.y);
            &&& w == len * stretch(v.norm_sq())
            &&& d == v.norm_sq() * (stretch(v.norm_sq()) * stretch(v.norm_sq()))
            &&& 0 < w
            &&& is_sqrt_floor(d, s)
            &&& s == sqrt_floor(d)
            &&& len < s
            &&& a * w <= s * len
            &&& b * w <= s * len
            &&& (a * w) * (a * w) + (b * w) * (b * w) == d * (len * len)
            &&& a * a + b * b == v.norm_sq()
            &&& normalized(v, len).x == (if v.x >= 0 { (a * w) / s } else { -((a * w) / s) })
            &&& normalized(v, len).y == (if v.y >= 0 { (b * w) / s } else { -((b * w) / s) })
        }),
{
    let n = v.norm_sq();
    let k = stretch(n);
    let w = len * k;
    let d = n * (k * k);
    let a = magnitude(v.x);
    let b = magnitude(v.y);
    lemma_norm_sq_positive(v);
    assert(a * a == v.x * v.x) by (nonlinear_arith)
        requires
            a == v.x || a == -v.x,
    ;
    assert(b * b == v.y * v.y) by (nonlinear_arith)
        requires
            b == v.y || b == -v.y,
    ;
    assert(a * a >= 0 && b * b >= 0) by (nonlinear_arith);
    assert(d >= 0x1_0000_0000_0000_0000) by (nonlinear_arith)
        requires
            d == n * (k * k),
            (n >= 1 && k == 0x1_0000_0000) || (n >= 0x1_0000_0000_0000_0000 && k == 1),
    ;
    lemma_sqrt_floor_exists(d);
    let s = sqrt_floor(d);
    lemma_below_root(0x1_0000_0000, d, s);
    assert((a * k) * (a * k) <= d && (b * k) * (b * k) <= d) by (nonlinear_arith)
        requires
            a * a + b * b == n,
            a * a >= 0,
            b * b >= 0,
            d == n * (k * k),
    ;
    assert(0 <= a * k && 0 <= b * k) by (nonlinear_arith)
        requires
            0 <= a,
            0 <= b,
            0 < k,
    ;
    lemma_below_root(a * k, d, s);
    lemma_below_root(b * k, d, s);
    assert(a * w <= s * len && b * w <= s * len) by (nonlinear_arith)
        requires
            w == len * k,
            a * k <= s,
            b * k <= s,
            0 < len,
    ;
    assert(0 < w) by (nonlinear_arith)
        requires
            w == len * k,
            0 < len,
            0 < k,
    ;
    lemma_stretched_squares(a, b, w, n);
    assert(w * w == (k * k) * (len * len)) by (nonlinear_arith)
        requires
            w == len * k,
    ;
    assert(n * ((k * k) * (len * len)) == (n * (k * k)) * (len * len)) by (nonlinear_arith);
    (w, d, s)
}

/// The vector `v` brought to the length `length`, or the zero vector where
/// `v` has no direction.
///
/// The result keeps the signs of the coordinates of `v`. Each coordinate is
/// rounded towards zero, so the length of the result may differ from
/// `length` by up to two grid steps: see [`lemma_normalized_length`].
pub fn normalize_or_zero(v: Vector, length: u32) -> (r: Vector)
    requires
        v@.within(COORD_MAX as int),
    ensures
        r@ == normalized(v@, length as int),
        r@.within(length as int),
        v@.is_zero() ==> r@.is_zero(),
{
    if v.is_zero() || length == 0 {
        return Vector::zero();
    }
    let n: u128 = v.norm_sq();
    let short = n < 0x1_0000_0000_0000_0000;
    let k: u128 = if short {
        0x1_0000_0000
    } else {
        1
    };
    proof {
        let parts = lemma_normalized_parts(v@, length as int);
        lemma_product_bound(v.x as int, v.x as int, COORD_MAX as int, COORD_MAX as int);
        lemma_product_bound(v.y as int, v.y as int, COORD_MAX as int, COORD_MAX as int);
        assert(n * (k * k) <= u128::MAX) by (nonlinear_arith)
            requires
                (n < 0x1_0000_0000_0000_0000 && k == 0x1_0000_0000) || (n <= 2 * (
                0x3fff_ffff_ffff_ffff * 0x3fff_ffff_ffff_ffff) && k == 1),
                0 <= n,
        ;
        assert((length as int) * (k as int) <= 0xffff_ffff * 0x1_0000_0000) by (nonlinear_arith)
            requires
                length <= 0xffff_ffff,
                k <= 0x1_0000_0000,
        ;
        // The dividends are at most the root times the length.
        assert(parts.2 <= 0xffff_ffff_ffff_ffff) by {
            if parts.2 > 0xffff_ffff_ffff_ffff {
                crate::root::lemma_square_monotone(0x1_0000_0000_0000_0000, parts.2);
            }
        }
        assert(parts.2 * (length as int) <= 0xffff_ffff_ffff_ffff * 0xffff_ffff) by (nonlinear_arith)
            requires
                0 <= parts.2 <= 0xffff_ffff_ffff_ffff,
                0 <= length <= 0xffff_ffff,
        ;
        lemma_quotient_bound(magnitude(v.x as int), parts.0, parts.2, (magnitude(v.x as int) * parts.0) / parts.2, length as int);
        lemma_quotient_bound(magnitude(v.y as int), parts.0, parts.2, (magnitude(v.y as int) * parts.0) / parts.2, length as int);
    }
    let w: u128 = (length as u128) * k;
    let s: u64 = isqrt(n * (k * k));
    Vector { x: divide(v.x, w, s), y: divide(v.y, w, s) }
}

/// Bringing a vector to the length `len` gives a vector that is `len` long
/// within two grid steps.
pub proof fn lemma_normalized_length(v: Vec2, len: int)
    requires
        !v.is_zero(),
        0 < len <= LENGTH_MAX,
    ensures
        near_length(normalized(v, len), len),
{
    let (w, d, s) = lemma_normalized_parts(v, len);
    let r = normalized(v, len);
    let a = magnitude(v.x);
    let b = magnitude(v.y);
    let qa = (a * w) / s;
    let qb = (b * w) / s;
    lemma_ratio_length(a, b, w, d, s, len * len, len, len);
    assert(r.norm_sq() == qa * qa + qb * qb) by (nonlinear_arith)
        requires
            r.x == qa || r.x == -qa,
            r.y == qb || r.y == -qb,
            r.norm_sq() == r.x * r.x + r.y * r.y,
    ;
}

/// Bringing a vector to a length keeps its direction, within one grid step
/// across.
pub proof fn lemma_normalized_direction(v: Vec2, len: int)
    requires
        !v.is_zero(),
        0 < len <= LENGTH_MAX,
    ensures
        near_ray(v, normalized(v, len)),
        v.x >= 0 ==> normalized(v, len).x >= 0,
        v.x <= 0 ==> normalized(v, len).x <= 0,
        v.y >= 0 ==> normalized(v, len).y >= 0,
        v.y <= 0 ==> normalized(v, len).y <= 0,
{
    let (w, d, s) = lemma_normalized_parts(v, len);
    let r = normalized(v, len);
    lemma_across(v, r, w, s);
}

/// The vector of the two quotients of the coordinates of `v` lies along `v`
/// within one grid step across.
pub proof fn lemma_across(v: Vec2, r: Vec2, w: int, s: int)
    requires
        0 <= w,
        0 < s,
        r.x == (if v.x >= 0 { (magnitude(v.x) * w) / s } else { -((magnitude(v.x) * w) / s) }),
        r.y == (if v.y >= 0 { (magnitude(v.y) * w) / s } else { -((magnitude(v.y) * w) / s) }),
    ensures
        near_ray(v, r),
        v.x >= 0 ==> r.x >= 0,
        v.x <= 0 ==> r.x <= 0,
        v.y >= 0 ==> r.y >= 0,
        v.y <= 0 ==> r.y <= 0,
{
    let a = magnitude(v.x);
    let b = magnitude(v.y);
    let qa = (a * w) / s;
    let qb = (b * w) / s;
    lemma_quotient(a, w, s, qa);
    lemma_quotient(b, w, s, qb);
    lemma_ratio_across(a, b, w, s);
    let across = a * qb - b * qa;
    assert(v.x * r.x == a * qa) by (nonlinear_arith)
        requires
            (v.x >= 0 && a == v.x && r.x == qa) || (v.x < 0 && a == -v.x && r.x == -qa),
    ;
    assert(v.y * r.y == b * qb) by (nonlinear_arith)
        requires
            (v.y >= 0 && b == v.y && r.y == qb) || (v.y < 0 && b == -v.y && r.y == -qb),
    ;
    assert(a * qa >= 0 && b * qb >= 0) by (nonlinear_arith)
        requires
            0 <= a,
            0 <= b,
            0 <= qa,
            0 <= qb,
    ;
    let c = v.cross(r);
    assert(c == across || c == -across) by (nonlinear_arith)
        requires
            c == v.x * r.y - v.y * r.x,
            across == a * qb - b * qa,
            (v.x >= 0 && a == v.x && r.x == qa) || (v.x < 0 && a == -v.x && r.x == -qa),
            (v.y >= 0 && b == v.y && r.y == qb) || (v.y < 0 && b == -v.y && r.y == -qb),
    ;
    assert(c * c == across * across) by (nonlinear_arith)
        requires
            c == across || c == -across,
    ;
    assert(a * a + b * b == v.norm_sq()) by (nonlinear_arith)
        requires
            a == v.x || a == -v.x,
            b == v.y || b == -v.y,
            v.norm_sq() == v.x * v.x + v.y * v.y,
    ;
}

/// Along an axis nothing is rounded: a vector along the second axis is
/// brought to the length `len` exactly.
pub proof fn lemma_normalized_axis_y(c: int, len: int)
    requires
        c != 0,
        len > 0,
    ensures
        normalized(Vec2 { x: 0, y: c }, len) == (Vec2 { x: 0, y: if c > 0 { len } else { -len } }),
{
    let v = Vec2 { x: 0, y: c };
    lemma_axis_quotient(c, len);
    assert(v.norm_sq() == c * c) by (nonlinear_arith)
        requires
            v.norm_sq() == v.x * v.x + v.y * v.y,
            v.x == 0 && v.y == c,
    ;
}

/// Along an axis nothing is rounded: a vector along the first axis is
/// brought to the length `len` exactly.
pub proof fn lemma_normalized_axis_x(c: int, len: int)
    requires
        c != 0,
        len > 0,
    ensures
        normalized(Vec2 { x: c, y: 0 }, len) == (Vec2 { x: if c > 0 { len } else { -len }, y: 0 }),
{
    let v = Vec2 { x: c, y: 0 };
    lemma_axis_quotient(c, len);
    assert(v.norm_sq() == c * c) by (nonlinear_arith)
        requires
            v.norm_sq() == v.x * v.x + v.y * v.y,
            v.x == c && v.y == 0,
    ;
}

/// The two coordinates of a vector along an axis, brought to a length.
proof fn lemma_axis_quotient(c: int, len: int)
    requires
        c != 0,
        len > 0,
    ensures
        ({
            let k = stretch(c * c);
            &&& ratio_axis(c, len * k, (c * c) * (k * k)) == (if c > 0 { len } else { -len })
            &&& ratio_axis(0, len * k, (c * c) * (k * k)) == 0
        }),
{
    let a = magnitude(c);
    let k = stretch(c * c);
    let w = len * k;
    let s = a * k;
    assert(s * s == (c * c) * (k * k)) by (nonlinear_arith)
        requires
            s == a * k,
            a == c || a == -c,
    ;
    assert(0 < s) by (nonlinear_arith)
        requires
            s == a * k,
            0 < a,
            0 < k,
    ;
    assert(s * s < (s + 1) * (s + 1)) by (nonlinear_arith)
        requires
            0 < s,
    ;
    lemma_sqrt_floor_is((c * c) * (k * k), s);
    assert(a * w == len * s) by (nonlinear_arith)
        requires
            s == a * k,
            w == len * k,
    ;
    vstd::arithmetic::div_mod::lemma_div_by_multiple(len, s);
    assert((0 * w) / s == 0) by {
        assert(0 * w == 0) by (nonlinear_arith);
        vstd::arithmetic::div_mod::lemma_div_basics(s);
    }
}

/// No coordinate of a vector brought to the length `len` is larger than
/// `len`.
pub proof fn lemma_normalized_within(v: Vec2, len: int)
    requires
        0 <= len <= LENGTH_MAX,
    ensures
        normalized(v, len).within(len),
{
    if !v.is_zero() && len > 0 {
        let (w, d, s) = lemma_normalized_parts(v, len);
        let a = magnitude(v.x);
        let b = magnitude(v.y);
        lemma_quotient_bound(a, w, s, (a * w) / s, len);
        lemma_quotient_bound(b, w, s, (b * w) / s, len);
    }
}

/// The zero vector has no direction and stays zero, whatever the length.
pub proof fn lemma_normalized_of_zero(len: int)
    ensures
        normalized(Vec2::zero(), len) == Vec2::zero(),
{
}

/// One coordinate of a vector that is about `len` long already, brought to
/// the length `len`: it moves by two grid steps at most.
proof fn lemma_again_axis(a: int, n: int, len: int, k: int, s: int, w: int)
    requires
        0 <= a,
        a * a <= n,
        7 <= len,
        (len - 2) * (len - 2) <= n < (len + 1) * (len + 1),
        0 < k,
        is_sqrt_floor(n * (k * k), s),
        w == len * k,
    ensures
        a - 1 <= (a * w) / s <= a + 2,
{
    let q = (a * w) / s;
    let d = n * (k * k);
    if a >= len + 1 {
        crate::root::lemma_square_monotone(len + 1, a);
    }
    // The root lies between (len - 2) * k and (len + 1) * k.
    assert(((len - 2) * k) * ((len - 2) * k) <= d) by (nonlinear_arith)
        requires
            (len - 2) * (len - 2) <= n,
            d == n * (k * k),
    ;
    assert(0 <= (len - 2) * k) by (nonlinear_arith)
        requires
            7 <= len,
            0 < k,
    ;
    lemma_below_root((len - 2) * k, d, s);
    assert(d < ((len + 1) * k) * ((len + 1) * k)) by (nonlinear_arith)
        requires
            n < (len + 1) * (len + 1),
            d == n * (k * k),
            0 < k,
    ;
    if s >= (len + 1) * k {
        crate::root::lemma_square_monotone((len + 1) * k, s);
    }
    assert(0 < s) by (nonlinear_arith)
        requires
            (len - 2) * k <= s,
            7 <= len,
            0 < k,
    ;
    assert(0 <= w) by (nonlinear_arith)
        requires
            w == len * k,
            7 <= len,
            0 < k,
    ;
    lemma_quotient(a, w, s, q);
    // Below: (a - 1) * s <= a * w < (q + 1) * s.
    if a >= 1 {
        assert((a - 1) * s <= a * w) by (nonlinear_arith)
            requires
                s < (len + 1) * k,
                w == len * k,
                1 <= a <= len,
                0 < k,
        ;
        assert(a - 1 <= q) by (nonlinear_arith)
            requires
                (a - 1) * s <= a * w,
                a * w < (q + 1) * s,
                0 < s,
        ;
    }
    // Above: q * s <= a * w < (a + 3) * s.
    assert(a * w < (a + 3) * s) by (nonlinear_arith)
        requires
            (len - 2) * k <= s,
            w == len * k,
            0 <= a <= len,
            7 <= len,
            0 < k,
    ;
    assert(q <= a + 2) by (nonlinear_arith)
        requires
            q * s <= a * w,
            a * w < (a + 3) * s,
            0 < s,
    ;
}

/// A vector that is about `len` long already stays where it is when it is
/// brought to the length `len`, within two grid steps in each coordinate.
pub proof fn lemma_normalized_again(u: Vec2, len: int)
    requires
        near_length(u, len),
        7 <= len <= LENGTH_MAX,
    ensures
        normalized(u, len).minus(u).within(2),
{
    lemma_norm_sq_positive(u);
    assert((len - 2) * (len - 2) > 0) by (nonlinear_arith)
        requires
            7 <= len,
    ;
    let (w, d, s) = lemma_normalized_parts(u, len);
    let n = u.norm_sq();
    let k = stretch(n);
    let a = magnitude(u.x);
    let b = magnitude(u.y);
    assert(a * a <= n && b * b <= n) by (nonlinear_arith)
        requires
            a * a + b * b == n,
    ;
    lemma_again_axis(a, n, len, k, s, w);
    lemma_again_axis(b, n, len, k, s, w);
}

/// The vector `v`, `m` times as long.
pub open spec fn stretched(v: Vec2, m: int) -> Vec2 {
    Vec2 { x: m * v.x, y: m * v.y }
}

/// Two quotients of the same coordinate over the same root, taken at two
/// stretches `f` and `g`, differ by one at most: the first is at most the
/// second and one.
proof fn lemma_same_ratio(a: int, len: int, n: int, f: int, g: int, s: int, t: int)
    requires
        0 <= a,
        0 < len,
        0 < f,
        0 < g,
        is_sqrt_floor(n * (f * f), s),
        is_sqrt_floor(n * (g * g), t),
        len < s,
        len < t,
        ((a * len) * g) / t <= len,
    ensures
        ((a * len) * f) / s <= ((a * len) * g) / t + 1,
{
    let c = a * len;
    let q = (c * f) / s;
    let r = (c * g) / t;
    assert(0 <= c) by (nonlinear_arith)
        requires
            c == a * len,
            0 <= a,
            0 < len,
    ;
    lemma_quotient(c, f, s, q);
    lemma_quotient(c, g, t, r);
    // t * f < (s + 1) * g: both are the root of n, stretched by f * g.
    assert((t * f) * (t * f) <= (n * (g * g)) * (f * f)) by (nonlinear_arith)
        requires
            t * t <= n * (g * g),
            0 < f,
    ;
    assert((n * (g * g)) * (f * f) == (n * (f * f)) * (g * g)) by (nonlinear_arith);
    assert((n * (f * f)) * (g * g) < ((s + 1) * g) * ((s + 1) * g)) by (nonlinear_arith)
        requires
            n * (f * f) < (s + 1) * (s + 1),
            0 < g,
    ;
    assert(0 <= t * f && 0 <= (s + 1) * g) by (nonlinear_arith)
        requires
            0 <= t,
            0 < f,
            0 <= s,
            0 < g,
    ;
    if t * f >= (s + 1) * g {
        crate::root::lemma_square_monotone((s + 1) * g, t * f);
    }
    // q * s * g <= c * f * g < (r + 1) * t * f < (r + 1) * (s + 1) * g.
    assert((q * s) * g <= (c * f) * g) by (nonlinear_arith)
        requires
            q * s <= c * f,
            0 < g,
    ;
    assert((c * f) * g == (c * g) * f) by (nonlinear_arith);
    assert((c * g) * f < ((r + 1) * t) * f) by (nonlinear_arith)
        requires
            c * g < (r + 1) * t,
            0 < f,
    ;
    assert(((r + 1) * t) * f == (r + 1) * (t * f)) by (nonlinear_arith);
    assert((r + 1) * (t * f) <= (r + 1) * ((s + 1) * g)) by (nonlinear_arith)
        requires
            t * f < (s + 1) * g,
            0 <= r,
    ;
    assert((r + 1) * ((s + 1) * g) == ((r + 1) * (s + 1)) * g) by (nonlinear_arith);
    assert(q * s < (r + 1) * (s + 1)) by (nonlinear_arith)
        requires
            (q * s) * g < ((r + 1) * (s + 1)) * g,
            0 < g,
    ;
    assert(q <= r + 1) by (nonlinear_arith)
        requires
            q * s < (r + 1) * (s + 1),
            0 <= r,
            r + 1 <= s,
    ;
}

/// Only the direction of a vector matters where it is brought to a length:
/// a vector and the same vector `m` times as long give the same result,
/// within one grid step in each coordinate.
pub proof fn lemma_normalized_of_stretched(v: Vec2, m: int, len: int)
    requires
        m > 0,
        0 < len <= LENGTH_MAX,
    ensures
        normalized(stretched(v, m), len).minus(normalized(v, len)).within(1),
{
    if !v.is_zero() {
        let u = stretched(v, m);
        assert(!u.is_zero()) by (nonlinear_arith)
            requires
                u.x == m * v.x,
                u.y == m * v.y,
                m > 0,
                v.x != 0 || v.y != 0,
        ;
        let n = v.norm_sq();
        assert(u.norm_sq() == n * (m * m)) by (nonlinear_arith)
            requires
                u.x == m * v.x,
                u.y == m * v.y,
                u.norm_sq() == u.x * u.x + u.y * u.y,
                n == v.x * v.x + v.y * v.y,
        ;
        let (w1, d1, s1) = lemma_normalized_parts(u, len);
        let (w2, d2, s2) = lemma_normalized_parts(v, len);
        let k1 = stretch(u.norm_sq());
        let k2 = stretch(n);
        let f = m * k1;
        assert(0 < f) by (nonlinear_arith)
            requires
                f == m * k1,
                m > 0,
                k1 > 0,
        ;
        assert(d1 == n * (f * f)) by (nonlinear_arith)
            requires
                d1 == (n * (m * m)) * (k1 * k1),
                f == m * k1,
        ;
        assert(magnitude(u.x) == m * magnitude(v.x) && magnitude(u.y) == m * magnitude(v.y))
            by (nonlinear_arith)
            requires
                u.x == m * v.x,
                u.y == m * v.y,
                m > 0,
                magnitude(u.x) == (if u.x >= 0 { u.x } else { -u.x }),
                magnitude(u.y) == (if u.y >= 0 { u.y } else { -u.y }),
                magnitude(v.x) == (if v.x >= 0 { v.x } else { -v.x }),
                magnitude(v.y) == (if v.y >= 0 { v.y } else { -v.y }),
        ;
        lemma_quotient_bound(magnitude(u.x), w1, s1, (magnitude(u.x) * w1) / s1, len);
        lemma_quotient_bound(magnitude(u.y), w1, s1, (magnitude(u.y) * w1) / s1, len);
        lemma_quotient_bound(magnitude(v.x), w2, s2, (magnitude(v.x) * w2) / s2, len);
        lemma_quotient_bound(magnitude(v.y), w2, s2, (magnitude(v.y) * w2) / s2, len);
        lemma_stretched_axis(v.x, m, len, n, k1, k2, f, s1, s2, w1, w2);
        lemma_stretched_axis(v.y, m, len, n, k1, k2, f, s1, s2, w1, w2);
        assert((u.x >= 0) == (v.x >= 0) || v.x == 0) by (nonlinear_arith)
            requires
                u.x == m * v.x,
                m > 0,
        ;
        assert((u.y >= 0) == (v.y >= 0) || v.y == 0) by (nonlinear_arith)
            requires
                u.y == m * v.y,
                m > 0,
        ;
    } else {
        assert(stretched(v, m).is_zero()) by (nonlinear_arith)
            requires
                stretched(v, m).x == m * v.x,
                stretched(v, m).y == m * v.y,
                v.x == 0,
                v.y == 0,
        ;
    }
}

/// One coordinate of a vector and of the same vector `m` times as long,
/// both brought to the length `len`.
proof fn lemma_stretched_axis(
    c: int,
    m: int,
    len: int,
    n: int,
    k1: int,
    k2: int,
    f: int,
    s1: int,
    s2: int,
    w1: int,
    w2: int,
)
    requires
        m > 0,
        0 < len,
        0 < k1,
        0 < k2,
        f == m * k1,
        is_sqrt_floor(n * (f * f), s1),
        is_sqrt_floor(n * (k2 * k2), s2),
        len < s1,
        len < s2,
        w1 == len * k1,
        w2 == len * k2,
        ((m * magnitude(c)) * w1) / s1 <= len,
        (magnitude(c) * w2) / s2 <= len,
    ensures
        -1 <= ((m * magnitude(c)) * w1) / s1 - (magnitude(c) * w2) / s2 <= 1,
{
    let a = magnitude(c);
    assert((m * a) * w1 == (a * len) * f) by (nonlinear_arith)
        requires
            w1 == len * k1,
            f == m * k1,
    ;
    assert(a * w2 == (a * len) * k2) by (nonlinear_arith)
        requires
            w2 == len * k2,
    ;
    assert(0 < f) by (nonlinear_arith)
        requires
            f == m * k1,
            m > 0,
            k1 > 0,
    ;
    lemma_same_ratio(a, len, n, f, k2, s1, s2);
    lemma_same_ratio(a, len, n, k2, f, s2, s1);
}

/// How far off its direction a vector of the right length can point: where
/// `r` is about `len` long and lies within one grid step of the line along
/// `w`, the sine of the angle between the two is at most one in `len - 2`.
/// With links of ten thousand and two grid steps, a joint is off its aim by
/// a ten-thousandth at most.
pub proof fn lemma_near_ray_sine(w: Vec2, r: Vec2, len: int)
    requires
        near_ray(w, r),
        near_length(r, len),
        len >= 2,
    ensures
        (w.cross(r) * w.cross(r)) * ((len - 2) * (len - 2)) <= w.norm_sq() * r.norm_sq(),
{
    let c = w.cross(r) * w.cross(r);
    let l = (len - 2) * (len - 2);
    assert(c >= 0) by (nonlinear_arith)
        requires
            c == w.cross(r) * w.cross(r),
    ;
    assert(l >= 0) by (nonlinear_arith)
        requires
            l == (len - 2) * (len - 2),
    ;
    assert(c * l <= w.norm_sq() * r.norm_sq()) by (nonlinear_arith)
        requires
            0 <= c <= w.norm_sq(),
            0 <= l <= r.norm_sq(),
    ;
}

} // verus!
