//! One joint of the chain: where a segment goes when the segment before it
//! has moved.
//!
//! The segment before it is the anchor. The segment is first pulled, or
//! pushed, along the line that joins it to the anchor until it is the link's
//! length away. Where that bends the chain at the anchor by more than the
//! joint allows, the segment is instead put at the allowed angle.

use vstd::prelude::*;
use crate::angle::{
    is_limit, lemma_turn_of_product, nearest_bound, product, turn_and_stretch, turn_between,
    turn_within, within_limit, Angle, SPAN_MAX,
};
use crate::normalize::{
    lemma_normalized_again, lemma_normalized_direction, lemma_normalized_length,
    lemma_normalized_of_stretched, near_length, near_ray, normalize_or_zero, normalized, stretched,
    LENGTH_MAX,
};
use crate::ratio::magnitude;
use crate::vector::{lemma_norm_sq_positive, lemma_product_bound, Vec2, Vector, COORD_MAX};

verus! {

/// The largest coordinate, in absolute value, of the position of a segment.
pub const POSITION_MAX: i64 = 0x2000_0000_0000;

/// The largest coordinate, in absolute value, of a point that is constrained
/// or that a bend is cut back at: half of what a vector can hold, so that
/// the difference of two such points is a vector.
pub const POINT_MAX: i64 = 0x1fff_ffff_ffff_ffff;

/// The point at `distance` from `anchor` on the ray from `anchor` through
/// `point`; `anchor` itself where `point` lies on it and gives no direction.
pub open spec fn constrained(point: Vec2, anchor: Vec2, distance: int) -> Vec2 {
    anchor.minus(normalized(anchor.minus(point), distance))
}

/// The direction from the segment to the anchor that the joint allows where
/// `current` bends too far from `prev`: `prev` turned by the nearest bound.
/// `None` where `current` is within the limit.
pub open spec fn clamped_direction(current: Vec2, prev: Vec2, limit: Vec2) -> Option<Vec2> {
    let turn = turn_between(prev, current);
    if within_limit(turn, limit) {
        None
    } else {
        Some(product(prev, nearest_bound(turn, limit)))
    }
}

/// The position that [`clamp_angle`] returns.
pub open spec fn clamped_position(
    current: Vec2,
    prev: Vec2,
    prev_position: Vec2,
    prev_size: int,
    limit: Vec2,
) -> Option<Vec2> {
    match clamped_direction(current, prev, limit) {
        None => None,
        Some(w) => Some(prev_position.minus(normalized(w, prev_size))),
    }
}

/// The direction from a segment to its anchor that the joint at the anchor
/// settles on: the direction in which the segment lies already, unless that
/// bends the chain too far.
pub open spec fn joint_aim(position: Vec2, limit: Vec2, anchor: Vec2, anchor_direction: Vec2) -> Vec2 {
    match clamped_direction(anchor.minus(position), anchor_direction, limit) {
        Some(w) => w,
        None => anchor.minus(position),
    }
}

/// The length of the link that the joint at the anchor settles on: that of
/// the segment, or that of the anchor where the bend had to be cut back.
pub open spec fn joint_reach(
    position: Vec2,
    distance: int,
    limit: Vec2,
    anchor: Vec2,
    anchor_direction: Vec2,
    anchor_distance: int,
) -> int {
    match clamped_direction(anchor.minus(position), anchor_direction, limit) {
        Some(w) => anchor_distance,
        None => distance,
    }
}

/// The position that [`follow`] returns.
pub open spec fn followed(
    position: Vec2,
    distance: int,
    limit: Vec2,
    anchor: Vec2,
    anchor_direction: Vec2,
    anchor_distance: int,
) -> Vec2 {
    match clamped_position(
        anchor.minus(position),
        anchor_direction,
        anchor,
        anchor_distance,
        limit,
    ) {
        Some(p) => p,
        None => constrained(position, anchor, distance),
    }
}

/// Moves `point` along the line through `anchor` until it is `distance`
/// away from `anchor`. A point that lies on `anchor` has no such line and
/// stays there.
pub fn constrain_distance(point: Vector, anchor: Vector, distance: u32) -> (r: Vector)
    requires
        point@.within(POINT_MAX as int),
        anchor@.within(POINT_MAX as int),
    ensures
        r@ == constrained(point@, anchor@, distance as int),
        r@.minus(anchor@).within(distance as int),
{
    let offset = anchor.minus(&point);
    let arm = normalize_or_zero(offset, distance);
    anchor.minus(&arm)
}

/// The direction that a turn beyond `limit` is cut back to: `prev` turned by
/// `limit`, to the side on which `current` lies, a half turn counting as
/// counter-clockwise. `None` where the turn from `prev` to `current` is
/// within `limit` on either side, as it is where one of the two is zero.
pub fn clamp_direction(current: Vector, prev: Vector, limit: Angle) -> (r: Option<Vector>)
    requires
        current@.within(SPAN_MAX as int),
        prev@.within(SPAN_MAX as int),
        is_limit(limit@),
    ensures
        r.is_some() == !within_limit(turn_between(prev@, current@), limit@),
        match r {
            Some(w) => Some(w@),
            None => None,
        } == clamped_direction(current@, prev@, limit@),
        r matches Some(w) ==> w@.within(COORD_MAX as int),
{
    let d = prev.dot(&current);
    let c = prev.cross(&current);
    proof {
        lemma_product_bound(prev.x as int, current.x as int, SPAN_MAX as int, SPAN_MAX as int);
        lemma_product_bound(prev.y as int, current.y as int, SPAN_MAX as int, SPAN_MAX as int);
        lemma_product_bound(prev.x as int, current.y as int, SPAN_MAX as int, SPAN_MAX as int);
        lemma_product_bound(prev.y as int, current.x as int, SPAN_MAX as int, SPAN_MAX as int);
    }
    if turn_within(d, c, &limit) {
        None
    } else if c >= 0 {
        Some(turn_and_stretch(prev, limit))
    } else {
        Some(turn_and_stretch(prev, Angle { cos: limit.cos, sin: -limit.sin }))
    }
}

/// Checks the bend at a joint. `current_direction` leads from the segment to
/// its anchor, `prev_direction` from the anchor to the segment before that
/// (for the first joint it is the heading of the head). Where the turn from
/// `prev_direction` to `current_direction` is within `limit` on either side,
/// the result is `None`. Otherwise it is the point at `prev_size` from
/// `prev_position` from which the direction to the anchor is `prev_direction`
/// turned by `limit`, to the side on which `current_direction` lies. A half
/// turn counts as counter-clockwise.
pub fn clamp_angle(
    current_direction: Vector,
    prev_direction: Vector,
    prev_position: Vector,
    prev_size: u32,
    limit: Angle,
) -> (r: Option<Vector>)
    requires
        current_direction@.within(SPAN_MAX as int),
        prev_direction@.within(SPAN_MAX as int),
        prev_position@.within(POINT_MAX as int),
        is_limit(limit@),
    ensures
        r.is_some() == !within_limit(turn_between(prev_direction@, current_direction@), limit@),
        match r {
            Some(p) => Some(p@),
            None => None,
        } == clamped_position(
            current_direction@,
            prev_direction@,
            prev_position@,
            prev_size as int,
            limit@,
        ),
        r matches Some(p) ==> p@.minus(prev_position@).within(prev_size as int),
{
    match clamp_direction(current_direction, prev_direction, limit) {
        None => None,
        Some(aim) => {
            let arm = normalize_or_zero(aim, prev_size);
            Some(prev_position.minus(&arm))
        },
    }
}

/// Where a segment at `position` goes once its anchor stands at `anchor`:
/// to the distance `distance` from the anchor, along the line that joins the
/// two, unless the joint at the anchor would bend by more than `limit`; in
/// that case to the distance `anchor_distance`, at the limit.
pub fn follow(
    position: Vector,
    distance: u32,
    limit: Angle,
    anchor: Vector,
    anchor_direction: Vector,
    anchor_distance: u32,
) -> (r: Vector)
    requires
        position@.within(POSITION_MAX as int),
        anchor@.within(POSITION_MAX as int),
        anchor_direction@.within(SPAN_MAX as int),
        is_limit(limit@),
    ensures
        r@ == followed(
            position@,
            distance as int,
            limit@,
            anchor@,
            anchor_direction@,
            anchor_distance as int,
        ),
        r@.minus(anchor@).within(LENGTH_MAX as int),
{
    let current = anchor.minus(&position);
    match clamp_angle(current, anchor_direction, anchor, anchor_distance, limit) {
        Some(p) => p,
        None => constrain_distance(position, anchor, distance),
    }
}

/// A point that has been constrained is as far from the anchor as asked,
/// within two grid steps, and lies where it lay as seen from the anchor,
/// within one grid step across, unless it lay on the anchor.
pub proof fn lemma_constrained_distance(point: Vec2, anchor: Vec2, distance: int)
    requires
        point != anchor,
        0 < distance <= LENGTH_MAX,
    ensures
        near_length(anchor.minus(constrained(point, anchor, distance)), distance),
        near_ray(anchor.minus(point), anchor.minus(constrained(point, anchor, distance))),
{
    lemma_normalized_length(anchor.minus(point), distance);
    lemma_normalized_direction(anchor.minus(point), distance);
}

/// Constraining a point twice is constraining it once: a point that has been
/// constrained stays where it is when it is constrained again, within two
/// grid steps in each coordinate.
pub proof fn lemma_constrained_twice(point: Vec2, anchor: Vec2, distance: int)
    requires
        point != anchor,
        7 <= distance <= LENGTH_MAX,
    ensures
        constrained(constrained(point, anchor, distance), anchor, distance).minus(
            constrained(point, anchor, distance),
        ).within(2),
{
    let arm = normalized(anchor.minus(point), distance);
    lemma_normalized_length(anchor.minus(point), distance);
    lemma_normalized_again(arm, distance);
    assert(anchor.minus(constrained(point, anchor, distance)) == arm);
}

/// A point on the anchor stays there.
pub proof fn lemma_constrained_on_the_anchor(anchor: Vec2, distance: int)
    ensures
        constrained(anchor, anchor, distance) == anchor,
{
}

/// Where a bend is cut back, it is cut back to the limit exactly: the turn
/// from the direction of the anchor to the new direction is the limit, or
/// its mirror image, stretched; and the position that goes with it is as far
/// from the anchor as asked, within two grid steps, in that direction within
/// one grid step across.
pub proof fn lemma_clamped_at_the_limit(
    current: Vec2,
    prev: Vec2,
    prev_position: Vec2,
    prev_size: int,
    limit: Vec2,
)
    requires
        is_limit(limit),
        0 < prev_size <= LENGTH_MAX,
        clamped_direction(current, prev, limit) is Some,
    ensures
        ({
            let aim = clamped_direction(current, prev, limit).unwrap();
            let bound = nearest_bound(turn_between(prev, current), limit);
            let position = clamped_position(current, prev, prev_position, prev_size, limit).unwrap();
            &&& prev.norm_sq() > 0
            &&& turn_between(prev, aim) == (Vec2 {
                x: prev.norm_sq() * bound.x,
                y: prev.norm_sq() * bound.y,
            })
            &&& within_limit(turn_between(prev, aim), limit)
            &&& near_length(prev_position.minus(position), prev_size)
            &&& near_ray(aim, prev_position.minus(position))
        }),
{
    let turn = turn_between(prev, current);
    let bound = nearest_bound(turn, limit);
    let aim = product(prev, bound);
    if prev.is_zero() {
        lemma_turn_of_zero(prev, current, limit);
    }
    lemma_norm_sq_positive(prev);
    lemma_norm_sq_positive(bound);
    lemma_norm_sq_positive(aim);
    lemma_turn_of_product(prev, bound);
    lemma_bound_within_limit(prev.norm_sq(), limit, turn.y < 0);
    assert(prev.norm_sq() * bound.norm_sq() > 0) by (nonlinear_arith)
        requires
            prev.norm_sq() > 0,
            bound.norm_sq() > 0,
    ;
    lemma_normalized_length(aim, prev_size);
    lemma_normalized_direction(aim, prev_size);
}

/// Whether a turn is within a limit does not depend on how far the turn is
/// stretched, nor does the side to which it turns.
pub proof fn lemma_within_limit_of_stretched(a: Vec2, m: int, limit: Vec2)
    requires
        m > 0,
    ensures
        within_limit(stretched(a, m), limit) == within_limit(a, limit),
        (stretched(a, m).y >= 0) == (a.y >= 0),
{
    let b = stretched(a, m);
    assert(magnitude(b.y) == m * magnitude(a.y)) by (nonlinear_arith)
        requires
            b.y == m * a.y,
            m > 0,
            magnitude(b.y) == (if b.y >= 0 { b.y } else { -b.y }),
            magnitude(a.y) == (if a.y >= 0 { a.y } else { -a.y }),
    ;
    assert(b.x * limit.y - (m * magnitude(a.y)) * limit.x == m * (a.x * limit.y - magnitude(a.y)
        * limit.x)) by (nonlinear_arith)
        requires
            b.x == m * a.x,
    ;
    let e = a.x * limit.y - magnitude(a.y) * limit.x;
    assert((m * e >= 0) == (e >= 0)) by (nonlinear_arith)
        requires
            m > 0,
    ;
    assert((b.y == 0) == (a.y == 0) && (b.x < 0) == (a.x < 0) && (b.y >= 0) == (a.y >= 0))
        by (nonlinear_arith)
        requires
            b.x == m * a.x,
            b.y == m * a.y,
            m > 0,
    ;
}

/// Only the angles of the two directions matter to the clamp, not their
/// lengths: with the directions stretched, the bend is cut back in the same
/// cases, and to the same position within one grid step in each coordinate.
pub proof fn lemma_clamp_ignores_lengths(
    current: Vec2,
    prev: Vec2,
    k: int,
    m: int,
    prev_position: Vec2,
    prev_size: int,
    limit: Vec2,
)
    requires
        k > 0,
        m > 0,
        is_limit(limit),
        0 < prev_size <= LENGTH_MAX,
    ensures
        ({
            let one = clamped_position(current, prev, prev_position, prev_size, limit);
            let other = clamped_position(
                stretched(current, k),
                stretched(prev, m),
                prev_position,
                prev_size,
                limit,
            );
            &&& one is None <==> other is None
            &&& one is Some ==> other.unwrap().minus(one.unwrap()).within(1)
        }),
{
    let turn = turn_between(prev, current);
    let long = turn_between(stretched(prev, m), stretched(current, k));
    assert(m * k > 0) by (nonlinear_arith)
        requires
            m > 0,
            k > 0,
    ;
    lemma_product_of_stretched(prev.x, current.x, m, k);
    lemma_product_of_stretched(prev.y, current.y, m, k);
    lemma_product_of_stretched(prev.x, current.y, m, k);
    lemma_product_of_stretched(prev.y, current.x, m, k);
    assert((m * k) * turn.x == (m * k) * (prev.x * current.x) + (m * k) * (prev.y * current.y))
        by (nonlinear_arith)
        requires
            turn.x == prev.x * current.x + prev.y * current.y,
    ;
    assert((m * k) * turn.y == (m * k) * (prev.x * current.y) - (m * k) * (prev.y * current.x))
        by (nonlinear_arith)
        requires
            turn.y == prev.x * current.y - prev.y * current.x,
    ;
    assert(long == stretched(turn, m * k));
    lemma_within_limit_of_stretched(turn, m * k, limit);
    if !within_limit(turn, limit) {
        let bound = nearest_bound(turn, limit);
        let aim = product(prev, bound);
        lemma_product_of_stretched(prev.x, bound.x, m, 1);
        lemma_product_of_stretched(prev.y, bound.y, m, 1);
        lemma_product_of_stretched(prev.x, bound.y, m, 1);
        lemma_product_of_stretched(prev.y, bound.x, m, 1);
        assert(m * aim.x == m * (prev.x * bound.x) - m * (prev.y * bound.y)) by (nonlinear_arith)
            requires
                aim.x == prev.x * bound.x - prev.y * bound.y,
        ;
        assert(m * aim.y == m * (prev.x * bound.y) + m * (prev.y * bound.x)) by (nonlinear_arith)
            requires
                aim.y == prev.x * bound.y + prev.y * bound.x,
        ;
        assert(product(stretched(prev, m), bound) == stretched(aim, m));
        lemma_normalized_of_stretched(aim, m, prev_size);
    }
}

/// A segment ends up on the ray from its anchor against the direction
/// [`joint_aim`], at the distance [`joint_reach`], as far as rounding allows.
pub proof fn lemma_followed_arm(
    position: Vec2,
    distance: int,
    limit: Vec2,
    anchor: Vec2,
    anchor_direction: Vec2,
    anchor_distance: int,
)
    ensures
        anchor.minus(
            followed(position, distance, limit, anchor, anchor_direction, anchor_distance),
        ) == normalized(
            joint_aim(position, limit, anchor, anchor_direction),
            joint_reach(position, distance, limit, anchor, anchor_direction, anchor_distance),
        ),
{
}

/// A limit, stretched, is within itself, and so is its mirror image.
pub proof fn lemma_bound_within_limit(k: int, limit: Vec2, clockwise: bool)
    requires
        k > 0,
        is_limit(limit),
    ensures
        within_limit(
            Vec2 { x: k * limit.x, y: k * (if clockwise { -limit.y } else { limit.y }) },
            limit,
        ),
{
    let a = Vec2 { x: k * limit.x, y: k * (if clockwise { -limit.y } else { limit.y }) };
    assert(magnitude(a.y) == k * limit.y) by (nonlinear_arith)
        requires
            a.y == k * limit.y || a.y == k * (-limit.y),
            k > 0,
            limit.y >= 0,
            magnitude(a.y) == (if a.y >= 0 { a.y } else { -a.y }),
    ;
    assert(a.x * limit.y - (k * limit.y) * limit.x == 0) by (nonlinear_arith)
        requires
            a.x == k * limit.x,
    ;
    assert(limit.x > 0 ==> a.x > 0) by (nonlinear_arith)
        requires
            a.x == k * limit.x,
            k > 0,
    ;
}

/// The bend that a joint settles on is within its limit: the turn from the
/// direction of the anchor to [`joint_aim`] is at most `limit` to either
/// side.
pub proof fn lemma_joint_aim_within(position: Vec2, limit: Vec2, anchor: Vec2, anchor_direction: Vec2)
    requires
        is_limit(limit),
    ensures
        within_limit(
            turn_between(anchor_direction, joint_aim(position, limit, anchor, anchor_direction)),
            limit,
        ),
{
    let current = anchor.minus(position);
    let turn = turn_between(anchor_direction, current);
    if !within_limit(turn, limit) {
        let bound = nearest_bound(turn, limit);
        lemma_turn_of_product(anchor_direction, bound);
        if anchor_direction.is_zero() {
            lemma_turn_of_zero(anchor_direction, current, limit);
        }
        lemma_norm_sq_positive(anchor_direction);
        lemma_bound_within_limit(anchor_direction.norm_sq(), limit, turn.y < 0);
    }
}

/// Where one of two vectors is zero, the turn between them is zero, and a
/// zero turn is within every limit.
pub proof fn lemma_turn_of_zero(a: Vec2, b: Vec2, limit: Vec2)
    requires
        a.is_zero() || b.is_zero(),
    ensures
        turn_between(a, b) == Vec2::zero(),
        within_limit(turn_between(a, b), limit),
{
    assert(a.x * b.x + a.y * b.y == 0) by (nonlinear_arith)
        requires
            (a.x == 0 && a.y == 0) || (b.x == 0 && b.y == 0),
    ;
    assert(a.x * b.y - a.y * b.x == 0) by (nonlinear_arith)
        requires
            (a.x == 0 && a.y == 0) || (b.x == 0 && b.y == 0),
    ;
    assert(0 * limit.y - magnitude(0) * limit.x == 0) by (nonlinear_arith)
        requires
            magnitude(0) == 0,
    ;
}

/// The direction that a joint settles on is a direction: it is zero only
/// where the segment lies on its anchor.
pub proof fn lemma_joint_aim_zero(position: Vec2, limit: Vec2, anchor: Vec2, anchor_direction: Vec2)
    requires
        is_limit(limit),
    ensures
        joint_aim(position, limit, anchor, anchor_direction).is_zero() <==> position == anchor,
        position == anchor ==> clamped_direction(anchor.minus(position), anchor_direction, limit)
            is None,
{
    let current = anchor.minus(position);
    let turn = turn_between(anchor_direction, current);
    if anchor_direction.is_zero() || current.is_zero() {
        lemma_turn_of_zero(anchor_direction, current, limit);
    }
    if !within_limit(turn, limit) {
        let bound = nearest_bound(turn, limit);
        let w = product(anchor_direction, bound);
        lemma_turn_of_product(anchor_direction, bound);
        lemma_norm_sq_positive(anchor_direction);
        lemma_norm_sq_positive(bound);
        lemma_norm_sq_positive(w);
        assert(anchor_direction.norm_sq() * bound.norm_sq() > 0) by (nonlinear_arith)
            requires
                anchor_direction.norm_sq() > 0,
                bound.norm_sq() > 0,
        ;
    }
}

/// After a joint has settled, the segment is as far from its anchor as the
/// link is long, within two grid steps, unless it lay on its anchor and so
/// had no direction to go in.
pub proof fn lemma_followed_distance(
    position: Vec2,
    distance: int,
    limit: Vec2,
    anchor: Vec2,
    anchor_direction: Vec2,
    anchor_distance: int,
)
    requires
        is_limit(limit),
        0 < distance <= LENGTH_MAX,
        0 < anchor_distance <= LENGTH_MAX,
        position != anchor,
    ensures
        near_length(
            anchor.minus(
                followed(position, distance, limit, anchor, anchor_direction, anchor_distance),
            ),
            joint_reach(position, distance, limit, anchor, anchor_direction, anchor_distance),
        ),
{
    lemma_joint_aim_zero(position, limit, anchor, anchor_direction);
    lemma_normalized_length(
        joint_aim(position, limit, anchor, anchor_direction),
        joint_reach(position, distance, limit, anchor, anchor_direction, anchor_distance),
    );
}

/// After a joint has settled, the direction from the segment to its anchor
/// is the one that the joint settled on, within one grid step across.
pub proof fn lemma_followed_direction(
    position: Vec2,
    distance: int,
    limit: Vec2,
    anchor: Vec2,
    anchor_direction: Vec2,
    anchor_distance: int,
)
    requires
        is_limit(limit),
        0 < distance <= LENGTH_MAX,
        0 < anchor_distance <= LENGTH_MAX,
        position != anchor,
    ensures
        near_ray(
            joint_aim(position, limit, anchor, anchor_direction),
            anchor.minus(
                followed(position, distance, limit, anchor, anchor_direction, anchor_distance),
            ),
        ),
{
    lemma_joint_aim_zero(position, limit, anchor, anchor_direction);
    lemma_normalized_direction(
        joint_aim(position, limit, anchor, anchor_direction),
        joint_reach(position, distance, limit, anchor, anchor_direction, anchor_distance),
    );
}

/// The product of two stretched numbers is the product, stretched by both.
proof fn lemma_product_of_stretched(a: int, b: int, m: int, k: int)
    ensures
        (m * a) * (k * b) == (m * k) * (a * b),
        k == 1 ==> (m * a) * b == m * (a * b),
{
    assert((m * a) * (k * b) == (m * k) * (a * b)) by (nonlinear_arith);
    assert(k == 1 ==> (m * a) * b == m * (a * b)) by (nonlinear_arith);
}

} // verus!
