//! The steady state: a straight chain that is pulled along its own line.

use vstd::prelude::*;
use crate::angle::{is_limit, turn_between, within_limit};
use crate::chain::{
    hint_of, propagated, segment_ok, settled, spawned, with_head_at, ChainModel, SEGMENTS_MAX,
};
use crate::joint::clamped_direction;
use crate::laws::{
    lemma_pass_keeps_order, lemma_pass_leaves_the_rest, lemma_tick_is_a_pass,
    lemma_tick_settles_every_joint,
    lemma_way_of_the_pass,
    segment_after_tick, segment_before_pass,
};
use crate::links::{live, path, Segment};
use crate::normalize::{lemma_normalized_axis_y, stretched};
use crate::ratio::magnitude;
use crate::steering::{
    at_rest, step_length, steered, steered_direction, HEADING_LENGTH, WORLD_MAX,
};
use crate::vector::Vec2;

verus! {

/// The vector points up the second axis.
pub open spec fn points_up(v: Vec2) -> bool {
    v.x == 0 && v.y > 0
}

/// The chain hangs straight down from its head along the second axis: every
/// segment behind the head lies below the segment before it, by the length
/// of its link, and the head is heading up.
pub open spec fn hangs_straight(chain: ChainModel) -> bool {
    &&& points_up(chain.direction)
    &&& forall|k: int|
        1 <= k < chain.order().len() ==> (#[trigger] segment_before_pass(chain, k)).position == (
        Vec2 {
            x: segment_before_pass(chain, k - 1).position.x,
            y: segment_before_pass(chain, k - 1).position.y - segment_before_pass(
                chain,
                k,
            ).distance,
        })
}

/// The turn between two vectors that point up is within every limit.
pub proof fn lemma_no_turn_between_upward(a: Vec2, b: Vec2, limit: Vec2)
    requires
        points_up(a),
        points_up(b),
        is_limit(limit),
    ensures
        within_limit(turn_between(a, b), limit),
        clamped_direction(b, a, limit) is None,
{
    let turn = turn_between(a, b);
    assert(turn.y == 0) by (nonlinear_arith)
        requires
            turn.y == a.x * b.y - a.y * b.x,
            a.x == 0,
            b.x == 0,
    ;
    assert(turn.x > 0) by (nonlinear_arith)
        requires
            turn.x == a.x * b.x + a.y * b.y,
            a.x == 0,
            b.x == 0,
            a.y > 0,
            b.y > 0,
    ;
    assert(turn.x * limit.y - magnitude(turn.y) * limit.x >= 0) by (nonlinear_arith)
        requires
            turn.x > 0,
            limit.y >= 0,
            magnitude(turn.y) == 0,
    ;
}

/// A head that steers for a target straight above it, pushed from straight
/// below if at all, goes straight up by its step, as long as it stays in the
/// world, and heads up.
pub proof fn lemma_steered_straight_up(
    position: Vec2,
    target: Vec2,
    hint: Option<Vec2>,
    speed: int,
    max_turn: Vec2,
    stop_radius_sq: int,
    dt_micros: int,
)
    requires
        is_limit(max_turn),
        position.within(WORLD_MAX as int),
        target.x == position.x,
        target.y > position.y,
        hint matches Some(h) ==> points_up(h),
        !at_rest(position, target, stop_radius_sq, dt_micros),
        position.y + step_length(speed, dt_micros) <= WORLD_MAX,
        0 <= speed,
    ensures
        steered(position, target, hint, speed, max_turn, stop_radius_sq, dt_micros) == Some(
            (
                Vec2 { x: position.x, y: position.y + step_length(speed, dt_micros) },
                Vec2 { x: 0, y: HEADING_LENGTH as int },
            ),
        ),
{
    let step = step_length(speed, dt_micros);
    let raw = target.minus(position);
    // The target lies straight ahead of the hint: the head aims at it.
    if let Some(h) = hint {
        lemma_no_turn_between_upward(h, raw, max_turn);
    }
    assert(steered_direction(raw, hint, max_turn) == raw);
    assert(step >= 0) by (nonlinear_arith)
        requires
            step == step_length(speed, dt_micros),
            0 <= speed,
            step_length(speed, dt_micros) == (if dt_micros <= 0 {
                0
            } else if (speed * dt_micros) / 1_000_000 > 0xffff_ffff {
                0xffff_ffff
            } else {
                (speed * dt_micros) / 1_000_000
            }),
    ;
    if step > 0 {
        lemma_normalized_axis_y(raw.y, step);
    }
    lemma_normalized_axis_y(raw.y, HEADING_LENGTH as int);
}

/// In a chain that hangs straight, the segment behind the head pushes up.
pub proof fn lemma_hint_points_up(chain: ChainModel)
    requires
        chain.well_formed(),
        hangs_straight(chain),
    ensures
        hint_of(chain) matches Some(h) ==> points_up(h),
{
    let head = chain.head_segment();
    if hint_of(chain) is Some {
        let count = chain.segments.len();
        let behind = path(chain.segments, head.next, count);
        lemma_way_of_the_pass(chain);
        let second = live(chain.segments, head.next).unwrap();
        // The segment behind the head is the second of the chain.
        assert(behind == seq![head.next.unwrap()] + path(
            chain.segments,
            second.next,
            (count - 1) as nat,
        ));
        assert(segment_before_pass(chain, 1) == second);
    }
}

/// In a tick for a target straight above it, the head of a chain that hangs
/// straight goes straight up by its step, as long as it stays in the world.
pub proof fn lemma_head_goes_straight_up(chain: ChainModel, target: Vec2, dt_micros: int)
    requires
        chain.well_formed(),
        hangs_straight(chain),
        target.within(WORLD_MAX as int),
        target.x == chain.head_segment().position.x,
        target.y > chain.head_segment().position.y,
        !at_rest(chain.head_segment().position, target, chain.stop_radius_sq, dt_micros),
        chain.head_segment().position.y + step_length(chain.speed, dt_micros) <= WORLD_MAX,
    ensures
        chain.order().len() > 0,
        segment_after_tick(chain, target, dt_micros, 0).position == (Vec2 {
            x: chain.head_segment().position.x,
            y: chain.head_segment().position.y + step_length(chain.speed, dt_micros),
        }),
        segment_after_tick(chain, target, dt_micros, 0).facing == (Vec2 {
            x: 0,
            y: HEADING_LENGTH as int,
        }),
{
    let head = chain.head_segment();
    lemma_hint_points_up(chain);
    lemma_steered_straight_up(
        head.position,
        target,
        hint_of(chain),
        chain.speed,
        chain.max_turn,
        chain.stop_radius_sq,
        dt_micros,
    );
    let moved = steered(
        head.position,
        target,
        hint_of(chain),
        chain.speed,
        chain.max_turn,
        chain.stop_radius_sq,
        dt_micros,
    ).unwrap();
    let turned = with_head_at(chain, target, moved.0, moved.1);
    lemma_tick_is_a_pass(chain, target, dt_micros);
    lemma_pass_leaves_the_rest(turned, chain.head as int);
}

/// A chain that hangs straight and is pulled straight up keeps its shape:
/// in a tick for a target straight above the head, every segment goes up by
/// the step of the head, as long as the head stays in the world, and every
/// segment looks up afterwards.
pub proof fn lemma_straight_chain_keeps_its_shape(
    chain: ChainModel,
    target: Vec2,
    dt_micros: int,
    k: int,
)
    requires
        chain.well_formed(),
        hangs_straight(chain),
        target.within(WORLD_MAX as int),
        target.x == chain.head_segment().position.x,
        target.y > chain.head_segment().position.y,
        !at_rest(chain.head_segment().position, target, chain.stop_radius_sq, dt_micros),
        chain.head_segment().position.y + step_length(chain.speed, dt_micros) <= WORLD_MAX,
        0 <= k < chain.order().len(),
    ensures
        segment_after_tick(chain, target, dt_micros, k).position == (Vec2 {
            x: segment_before_pass(chain, k).position.x,
            y: segment_before_pass(chain, k).position.y + step_length(chain.speed, dt_micros),
        }),
        points_up(segment_after_tick(chain, target, dt_micros, k).facing),
        k >= 1 ==> segment_after_tick(chain, target, dt_micros, k).facing == (Vec2 {
            x: 0,
            y: segment_before_pass(chain, k).distance,
        }),
    decreases k,
{
    if k == 0 {
        lemma_head_goes_straight_up(chain, target, dt_micros);
    } else {
        lemma_straight_chain_keeps_its_shape(chain, target, dt_micros, k - 1);
        lemma_tick_settles_every_joint(chain, target, dt_micros, k);
        let anchor = segment_after_tick(chain, target, dt_micros, k - 1);
        let before = segment_before_pass(chain, k);
        lemma_settled_straight_below(
            before,
            segment_before_pass(chain, k - 1).position,
            anchor.position,
            anchor.facing,
            anchor.distance,
            step_length(chain.speed, dt_micros),
        );
    }
}

/// A segment that hung straight below its anchor, after the anchor has gone
/// straight up by `step` and looks up, hangs straight below it again.
pub proof fn lemma_settled_straight_below(
    before: Segment,
    anchor_before: Vec2,
    anchor: Vec2,
    direction: Vec2,
    distance: int,
    step: int,
)
    requires
        segment_ok(before),
        before.position == (Vec2 { x: anchor_before.x, y: anchor_before.y - before.distance }),
        anchor == (Vec2 { x: anchor_before.x, y: anchor_before.y + step }),
        step >= 0,
        points_up(direction),
    ensures
        settled(before, anchor, direction, distance).position == (Vec2 {
            x: before.position.x,
            y: before.position.y + step,
        }),
        settled(before, anchor, direction, distance).facing == (Vec2 {
            x: 0,
            y: before.distance,
        }),
{
    let current = anchor.minus(before.position);
    lemma_no_turn_between_upward(direction, current, before.limit);
    lemma_normalized_axis_y(current.y, before.distance);
}

/// In the slots of a spawned chain, the way from the slot `j` leads down
/// through every slot to the first.
pub proof fn lemma_straight_path(segments: Seq<Option<Segment>>, j: int, fuel: nat)
    requires
        0 <= j < segments.len() <= SEGMENTS_MAX,
        j < fuel,
        forall|i: int|
            0 <= i < segments.len() ==> (#[trigger] segments[i]) is Some && segments[i].unwrap().next
                == (if i == 0 {
                None
            } else {
                Some((i - 1) as usize)
            }),
    ensures
        path(segments, Some(j as usize), fuel) == Seq::new(
            (j + 1) as nat,
            |k: int| (j - k) as usize,
        ),
    decreases j,
{
    let segment = segments[j].unwrap();
    let down = Seq::new((j + 1) as nat, |k: int| (j - k) as usize);
    let rest = path(segments, segment.next, (fuel - 1) as nat);
    if j > 0 {
        lemma_straight_path(segments, j - 1, (fuel - 1) as nat);
    }
    assert(down =~= seq![j as usize] + rest);
}

/// A spawned chain hangs straight: its segments come in the order of their
/// slots, from the last slot down, each a link below the one before it.
pub proof fn lemma_spawned_hangs_straight(
    length: nat,
    spacing: int,
    limit: Vec2,
    head_position: Vec2,
    speed: int,
    max_turn: Vec2,
    stop_radius_sq: int,
)
    requires
        0 < length <= SEGMENTS_MAX,
    ensures
        ({
            let chain = spawned(
                length,
                spacing,
                limit,
                head_position,
                speed,
                max_turn,
                stop_radius_sq,
            );
            &&& chain.order() == Seq::new(length, |k: int| (length - 1 - k) as usize)
            &&& hangs_straight(chain)
        }),
{
    let chain = spawned(length, spacing, limit, head_position, speed, max_turn, stop_radius_sq);
    lemma_straight_path(chain.segments, length - 1, length);
    assert forall|k: int| 1 <= k < chain.order().len() implies (#[trigger] segment_before_pass(
        chain,
        k,
    )).position == (Vec2 {
        x: segment_before_pass(chain, k - 1).position.x,
        y: segment_before_pass(chain, k - 1).position.y - segment_before_pass(chain, k).distance,
    }) by {
        assert((length - 1 - (length - 1 - k)) * spacing == (length - 1 - (length - k)) * spacing
            + spacing) by (nonlinear_arith);
    }
}

/// A chain that hangs straight and is pulled straight up hangs straight
/// afterwards: the steady state lasts.
pub proof fn lemma_straight_chain_stays_straight(chain: ChainModel, target: Vec2, dt_micros: int)
    requires
        chain.well_formed(),
        hangs_straight(chain),
        target.within(WORLD_MAX as int),
        target.x == chain.head_segment().position.x,
        target.y > chain.head_segment().position.y,
        !at_rest(chain.head_segment().position, target, chain.stop_radius_sq, dt_micros),
        chain.head_segment().position.y + step_length(chain.speed, dt_micros) <= WORLD_MAX,
    ensures
        propagated(chain, Some(target), dt_micros).order() == chain.order(),
        hangs_straight(propagated(chain, Some(target), dt_micros)),
{
    let after = propagated(chain, Some(target), dt_micros);
    let moved = steered(
        chain.head_segment().position,
        target,
        hint_of(chain),
        chain.speed,
        chain.max_turn,
        chain.stop_radius_sq,
        dt_micros,
    ).unwrap();
    lemma_tick_is_a_pass(chain, target, dt_micros);
    lemma_pass_keeps_order(with_head_at(chain, target, moved.0, moved.1));
    lemma_hint_points_up(chain);
    lemma_steered_straight_up(
        chain.head_segment().position,
        target,
        hint_of(chain),
        chain.speed,
        chain.max_turn,
        chain.stop_radius_sq,
        dt_micros,
    );
    assert forall|k: int| 1 <= k < after.order().len() implies (#[trigger] segment_before_pass(
        after,
        k,
    )).position == (Vec2 {
        x: segment_before_pass(after, k - 1).position.x,
        y: segment_before_pass(after, k - 1).position.y - segment_before_pass(after, k).distance,
    }) by {
        lemma_straight_chain_keeps_its_shape(chain, target, dt_micros, k);
        lemma_straight_chain_keeps_its_shape(chain, target, dt_micros, k - 1);
        lemma_tick_settles_every_joint(chain, target, dt_micros, k);
    }
}

/// A pull along the line of motion never widens a bend, in whatever
/// direction the motion goes. Where `x` leads from a segment to its anchor
/// and the anchor goes on by `t` times its heading `u`, the direction from
/// the segment to the anchor turns towards `u`: whatever limit the turn from
/// `u` to `x` was within, the turn from `u` to `x + t * u` is within it too.
/// So the bend at a joint behind a head that runs straight on grows no
/// wider from tick to tick, apart from the rounding of the positions.
pub proof fn lemma_pull_narrows_bend(u: Vec2, x: Vec2, t: int, limit: Vec2)
    requires
        t >= 0,
        limit.y >= 0,
        within_limit(turn_between(u, x), limit),
    ensures
        within_limit(turn_between(u, x.plus(stretched(u, t))), limit),
        turn_between(u, x.plus(stretched(u, t))).y == turn_between(u, x).y,
        turn_between(u, x.plus(stretched(u, t))).x == turn_between(u, x).x + t * u.norm_sq(),
{
    let y = x.plus(stretched(u, t));
    let before = turn_between(u, x);
    let after = turn_between(u, y);
    crate::vector::lemma_norm_sq_positive(u);
    assert(after.y == before.y) by (nonlinear_arith)
        requires
            after.y == u.x * y.y - u.y * y.x,
            before.y == u.x * x.y - u.y * x.x,
            y.x == x.x + t * u.x,
            y.y == x.y + t * u.y,
    ;
    assert(after.x == before.x + t * u.norm_sq()) by (nonlinear_arith)
        requires
            after.x == u.x * y.x + u.y * y.y,
            before.x == u.x * x.x + u.y * x.y,
            y.x == x.x + t * u.x,
            y.y == x.y + t * u.y,
            u.norm_sq() == u.x * u.x + u.y * u.y,
    ;
    assert(t * u.norm_sq() >= 0) by (nonlinear_arith)
        requires
            t >= 0,
            u.norm_sq() >= 0,
    ;
    assert(after.x * limit.y >= before.x * limit.y) by (nonlinear_arith)
        requires
            after.x >= before.x,
            limit.y >= 0,
    ;
}

} // verus!
