//! Dividing by a square root: the one place where this crate rounds.
//!
//! A coordinate `c` is divided by the root of `d` after it has been
//! stretched by `w`: the quotient is `|c| * w` by the rounded-down root of
//! `d`, rounded down, with the sign of `c`. Bringing a vector to a length
//! and turning it by an angle both come down to this.

use vstd::prelude::*;
use crate::root::{is_sqrt_floor, lemma_square_monotone, lemma_square_strictly_monotone, sqrt_floor};

verus! {

/// The absolute value of `c`.
pub open spec fn magnitude(c: int) -> int {
    if c >= 0 {
        c
    } else {
        -c
    }
}

/// `|c| * w` divided by `s`, rounded down, with the sign of `c`.
pub open spec fn quotient_axis(c: int, w: int, s: int) -> int {
    if c >= 0 {
        (c * w) / s
    } else {
        -(((-c) * w) / s)
    }
}

/// `|c| * w` divided by the rounded-down root of `d`, rounded down, with the
/// sign of `c`.
pub open spec fn ratio_axis(c: int, w: int, d: int) -> int {
    quotient_axis(c, w, sqrt_floor(d))
}

/// What a quotient is: the largest multiple of the divisor that is not above
/// the dividend.
pub proof fn lemma_quotient(a: int, w: int, s: int, q: int)
    requires
        0 <= a,
        0 <= w,
        0 < s,
        q == (a * w) / s,
    ensures
        0 <= q,
        q * s <= a * w,
        a * w < (q + 1) * s,
{
    let p = a * w;
    assert(0 <= p) by (nonlinear_arith)
        requires
            p == a * w,
            0 <= a,
            0 <= w,
    ;
    vstd::arithmetic::div_mod::lemma_fundamental_div_mod(p, s);
    vstd::arithmetic::div_mod::lemma_mod_bound(p, s);
    assert(s * q == q * s) by (nonlinear_arith);
    assert((q + 1) * s == q * s + s) by (nonlinear_arith);
    assert(0 <= q) by (nonlinear_arith)
        requires
            0 < s,
            0 <= p,
            p < (q + 1) * s,
    ;
}

/// A quotient is at most `cap` where the dividend is at most `cap` times the
/// divisor.
pub proof fn lemma_quotient_bound(a: int, w: int, s: int, q: int, cap: int)
    requires
        0 <= a,
        0 <= w,
        0 < s,
        q == (a * w) / s,
        a * w <= s * cap,
    ensures
        0 <= q <= cap,
{
    lemma_quotient(a, w, s, q);
    assert(q <= cap) by (nonlinear_arith)
        requires
            0 < s,
            q * s <= a * w,
            a * w <= s * cap,
    ;
}

/// The number `x` is at most the rounded-down root of `d` where its square
/// is at most `d`.
pub proof fn lemma_below_root(x: int, d: int, s: int)
    requires
        0 <= x,
        x * x <= d,
        is_sqrt_floor(d, s),
    ensures
        x <= s,
{
    if s < x {
        lemma_square_monotone(s + 1, x);
    }
}

/// How long the vector of two quotients is. The two dividends are the
/// coordinates of a vector whose squared length is `d * lambda`, so the
/// quotients are those of a vector whose squared length is about `lambda`:
/// below `(upper + 1)^2` where `lambda` is at most `upper^2`, and at least
/// `(lower - 2)^2` where `lambda` is at least `lower^2`.
pub proof fn lemma_ratio_length(
    a: int,
    b: int,
    w: int,
    d: int,
    s: int,
    lambda: int,
    lower: int,
    upper: int,
)
    requires
        0 <= a,
        0 <= b,
        0 <= w,
        0 < s,
        is_sqrt_floor(d, s),
        (a * w) * (a * w) + (b * w) * (b * w) == d * lambda,
        0 <= lower,
        lower * lower <= lambda <= upper * upper,
        0 <= upper <= s,
    ensures
        ({
            let qa = (a * w) / s;
            let qb = (b * w) / s;
            &&& qa * qa + qb * qb < (upper + 1) * (upper + 1)
            &&& lower >= 2 ==> qa * qa + qb * qb >= (lower - 2) * (lower - 2)
        }),
{
    let qa = (a * w) / s;
    let qb = (b * w) / s;
    lemma_quotient(a, w, s, qa);
    lemma_quotient(b, w, s, qb);
    let big = qa * qa + qb * qb;
    assert(0 <= qa * s && 0 <= qb * s) by (nonlinear_arith)
        requires
            0 <= qa,
            0 <= qb,
            0 < s,
    ;
    // Above: big * s^2 <= d * lambda < ((s + 1) * upper)^2 <= (s * (upper + 1))^2.
    lemma_square_monotone(qa * s, a * w);
    lemma_square_monotone(qb * s, b * w);
    assert(big * (s * s) == (qa * s) * (qa * s) + (qb * s) * (qb * s)) by (nonlinear_arith)
        requires
            big == qa * qa + qb * qb,
    ;
    assert(0 <= lambda) by (nonlinear_arith)
        requires
            lower * lower <= lambda,
    ;
    if lambda > 0 {
        assert(d * lambda < ((s + 1) * (s + 1)) * lambda) by (nonlinear_arith)
            requires
                d < (s + 1) * (s + 1),
                lambda > 0,
        ;
        assert(((s + 1) * (s + 1)) * lambda <= ((s + 1) * (s + 1)) * (upper * upper))
            by (nonlinear_arith)
            requires
                lambda <= upper * upper,
                0 < s,
        ;
        assert(0 <= (s + 1) * upper <= s * (upper + 1)) by (nonlinear_arith)
            requires
                0 <= upper <= s,
        ;
        lemma_square_monotone((s + 1) * upper, s * (upper + 1));
        assert(((s + 1) * upper) * ((s + 1) * upper) == ((s + 1) * (s + 1)) * (upper * upper))
            by (nonlinear_arith);
        assert((s * (upper + 1)) * (s * (upper + 1)) == ((upper + 1) * (upper + 1)) * (s * s))
            by (nonlinear_arith);
        assert(big < (upper + 1) * (upper + 1)) by (nonlinear_arith)
            requires
                big * (s * s) < ((upper + 1) * (upper + 1)) * (s * s),
                0 < s,
        ;
    } else {
        assert(d * lambda == 0) by (nonlinear_arith)
            requires
                lambda == 0,
        ;
        assert(big == 0) by (nonlinear_arith)
            requires
                big * (s * s) <= 0,
                0 < s,
                big == qa * qa + qb * qb,
                0 <= qa,
                0 <= qb,
        ;
        assert((upper + 1) * (upper + 1) > 0) by (nonlinear_arith)
            requires
                0 <= upper,
        ;
    }
    // Below: ((qa + 1)^2 + (qb + 1)^2) * s^2 > d * lambda >= s^2 * lower^2.
    if lower >= 2 {
        assert(0 <= a * w && 0 <= b * w) by (nonlinear_arith)
            requires
                0 <= a,
                0 <= b,
                0 <= w,
        ;
        lemma_square_strictly_monotone(a * w, (qa + 1) * s);
        lemma_square_strictly_monotone(b * w, (qb + 1) * s);
        let up = (qa + 1) * (qa + 1) + (qb + 1) * (qb + 1);
        assert(up * (s * s) == ((qa + 1) * s) * ((qa + 1) * s) + ((qb + 1) * s) * ((qb + 1) * s))
            by (nonlinear_arith)
            requires
                up == (qa + 1) * (qa + 1) + (qb + 1) * (qb + 1),
        ;
        assert(d * lambda >= (s * s) * (lower * lower)) by (nonlinear_arith)
            requires
                d >= s * s,
                lambda >= lower * lower,
                0 < s,
                lower >= 0,
        ;
        assert(up > lower * lower) by (nonlinear_arith)
            requires
                up * (s * s) > (s * s) * (lower * lower),
                0 < s,
        ;
        let u = lower - 2;
        let t = qa + qb;
        if big < u * u {
            assert(t * t <= 2 * big) by (nonlinear_arith)
                requires
                    t == qa + qb,
                    big == qa * qa + qb * qb,
            ;
            assert(2 * t <= 3 * u) by (nonlinear_arith)
                requires
                    t * t <= 2 * big,
                    big < u * u,
                    0 <= t,
                    0 <= u,
            ;
            assert(up == big + 2 * t + 2) by (nonlinear_arith)
                requires
                    up == (qa + 1) * (qa + 1) + (qb + 1) * (qb + 1),
                    big == qa * qa + qb * qb,
                    t == qa + qb,
            ;
            assert(lower * lower == u * u + 4 * u + 4) by (nonlinear_arith)
                requires
                    u == lower - 2,
            ;
            assert(false);
        }
    }
}

/// How far across the vector of two quotients lies: by less than one grid
/// step off the line of the vector of the two dividends.
pub proof fn lemma_ratio_across(a: int, b: int, w: int, s: int)
    requires
        0 <= a,
        0 <= b,
        0 <= w,
        0 < s,
    ensures
        ({
            let qa = (a * w) / s;
            let qb = (b * w) / s;
            let across = a * qb - b * qa;
            &&& -a <= across <= b
            &&& across * across <= a * a + b * b
            &&& a == 0 || w == 0 ==> qa == 0
            &&& b == 0 || w == 0 ==> qb == 0
        }),
{
    let qa = (a * w) / s;
    let qb = (b * w) / s;
    lemma_quotient(a, w, s, qa);
    lemma_quotient(b, w, s, qb);
    let across = a * qb - b * qa;
    assert(a * w == 0 ==> qa == 0) by (nonlinear_arith)
        requires
            qa * s <= a * w,
            0 <= qa,
            0 < s,
    ;
    assert(b * w == 0 ==> qb == 0) by (nonlinear_arith)
        requires
            qb * s <= b * w,
            0 <= qb,
            0 < s,
    ;
    assert((a == 0 || w == 0) ==> a * w == 0) by (nonlinear_arith);
    assert((b == 0 || w == 0) ==> b * w == 0) by (nonlinear_arith);
    assert(across * s <= b * s) by (nonlinear_arith)
        requires
            across == a * qb - b * qa,
            qb * s <= b * w,
            a * w < (qa + 1) * s,
            0 <= a,
            0 <= b,
    ;
    assert(-(across * s) <= a * s) by (nonlinear_arith)
        requires
            across == a * qb - b * qa,
            qa * s <= a * w,
            b * w < (qb + 1) * s,
            0 <= a,
            0 <= b,
    ;
    assert(-a <= across <= b) by (nonlinear_arith)
        requires
            across * s <= b * s,
            -(across * s) <= a * s,
            0 < s,
    ;
    assert(across * across <= a * a + b * b) by (nonlinear_arith)
        requires
            -a <= across <= b,
            0 <= a,
            0 <= b,
    ;
}

/// Divides `|c| * w` by `s` and gives the quotient the sign of `c`.
pub fn divide(c: i64, w: u128, s: u64) -> (r: i64)
    requires
        0 < s,
        magnitude(c as int) * w <= u128::MAX,
        (magnitude(c as int) * w) / (s as int) <= i64::MAX,
        c > i64::MIN,
    ensures
        r == quotient_axis(c as int, w as int, s as int),
        magnitude(r as int) == (magnitude(c as int) * w) / (s as int),
{
    let a: u128 = if c >= 0 {
        c as u128
    } else {
        (-c) as u128
    };
    let q: u128 = (a * w) / (s as u128);
    if c >= 0 {
        q as i64
    } else {
        proof {
            lemma_quotient(a as int, w as int, s as int, q as int);
        }
        -(q as i64)
    }
}

/// The squares of the two coordinates of a vector, each stretched by `w`,
/// add up to the squared length of the vector, stretched by `w * w`.
pub proof fn lemma_stretched_squares(a: int, b: int, w: int, n: int)
    requires
        a * a + b * b == n,
    ensures
        (a * w) * (a * w) + (b * w) * (b * w) == n * (w * w),
{
    assert((a * w) * (a * w) == (a * a) * (w * w)) by (nonlinear_arith);
    assert((b * w) * (b * w) == (b * b) * (w * w)) by (nonlinear_arith);
    assert((a * a) * (w * w) + (b * b) * (w * w) == (a * a + b * b) * (w * w)) by (nonlinear_arith);
}

/// By how much a quotient misses: `c * w` and the quotient times `s` differ
/// by less than `s`.
pub proof fn lemma_quotient_error(c: int, w: int, s: int)
    requires
        0 <= w,
        0 < s,
    ensures
        -(s - 1) <= c * w - quotient_axis(c, w, s) * s <= s - 1,
{
    let a = magnitude(c);
    let q = (a * w) / s;
    let r = quotient_axis(c, w, s);
    lemma_quotient(a, w, s, q);
    assert((q + 1) * s == q * s + s) by (nonlinear_arith);
    if c >= 0 {
        assert(r == q);
        assert(c * w - r * s == a * w - q * s) by (nonlinear_arith)
            requires
                r == q,
                a == c,
        ;
    } else {
        assert(r == -q);
        assert(c * w - r * s == -(a * w - q * s)) by (nonlinear_arith)
            requires
                r == -q,
                a == -c,
        ;
    }
}

} // verus!
