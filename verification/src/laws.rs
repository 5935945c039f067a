//! What holds of every chain after a pass, and after a tick.

use vstd::prelude::*;
use crate::angle::{turn_between, within_limit};
use crate::chain::{
    after_pass, hint_of, passed, propagated, segment_ok, settled, with_head_at, ChainModel,
    SEGMENTS_MAX,
};
use crate::joint::{
    clamped_direction, joint_aim, joint_reach, lemma_followed_arm,
    lemma_followed_direction, lemma_followed_distance, lemma_joint_aim_within,
    lemma_joint_aim_zero,
};
use crate::links::{
    ends_within, lemma_no_way_back, lemma_path_of_same_links, lemma_path_steps,
    lemma_path_with_more_fuel, live, path, same_links, Segment,
};
use crate::normalize::{lemma_normalized_within, near_length, near_ray};
use crate::steering::{at_rest, steered, steered_direction, HEADING_LENGTH, WORLD_MAX};
use crate::vector::Vec2;

verus! {

/// Where the anchor of the `k`-th segment of `way` stands after a pass that
/// started from an anchor at `anchor`.
pub open spec fn anchor_position(
    out: Seq<Option<Segment>>,
    way: Seq<usize>,
    k: int,
    anchor: Vec2,
) -> Vec2 {
    if k == 0 {
        anchor
    } else {
        out[way[k - 1] as int].unwrap().position
    }
}

/// Where the anchor of the `k`-th segment of `way` looks after a pass that
/// started from an anchor that looked in `direction`.
pub open spec fn anchor_facing(
    out: Seq<Option<Segment>>,
    way: Seq<usize>,
    k: int,
    direction: Vec2,
) -> Vec2 {
    if k == 0 {
        direction
    } else {
        out[way[k - 1] as int].unwrap().facing
    }
}

/// The length of the link of the anchor of the `k`-th segment of `way`.
pub open spec fn anchor_distance(
    segments: Seq<Option<Segment>>,
    way: Seq<usize>,
    k: int,
    distance: int,
) -> int {
    if k == 0 {
        distance
    } else {
        segments[way[k - 1] as int].unwrap().distance
    }
}

/// A pass keeps the links.
pub proof fn lemma_pass_keeps_links(
    segments: Seq<Option<Segment>>,
    next: Option<usize>,
    anchor: Vec2,
    direction: Vec2,
    distance: int,
    fuel: nat,
)
    ensures
        same_links(after_pass(segments, next, anchor, direction, distance, fuel), segments),
    decreases fuel,
{
    match live(segments, next) {
        None => {},
        Some(segment) => {
            if fuel > 0 {
                let moved = settled(segment, anchor, direction, distance);
                let segments1 = segments.update(next.unwrap() as int, Some(moved));
                lemma_pass_keeps_links(
                    segments1,
                    segment.next,
                    moved.position,
                    moved.facing,
                    segment.distance,
                    (fuel - 1) as nat,
                );
                // The links of `segments1` are those of `segments`.
                let out = after_pass(segments, next, anchor, direction, distance, fuel);
                assert forall|i: int| 0 <= i < out.len() implies (#[trigger] out[i] is Some) == (
                segments[i] is Some) by {
                    assert(segments1[i] is Some == segments[i] is Some);
                }
                assert forall|i: int| 0 <= i < out.len() && out[i] is Some implies (
                #[trigger] out[i]).unwrap().next == segments[i].unwrap().next by {
                    assert(segments1[i].unwrap().next == segments[i].unwrap().next);
                }
            }
        },
    }
}

/// A pass leaves every slot that is not on its way as it was.
pub proof fn lemma_pass_off_the_way(
    segments: Seq<Option<Segment>>,
    next: Option<usize>,
    anchor: Vec2,
    direction: Vec2,
    distance: int,
    fuel: nat,
    j: int,
)
    requires
        0 <= j < segments.len(),
        !path(segments, next, fuel).contains(j as usize),
    ensures
        after_pass(segments, next, anchor, direction, distance, fuel).len() == segments.len(),
        after_pass(segments, next, anchor, direction, distance, fuel)[j] == segments[j],
    decreases fuel,
{
    lemma_pass_keeps_links(segments, next, anchor, direction, distance, fuel);
    match live(segments, next) {
        None => {},
        Some(segment) => {
            if fuel > 0 {
                let id = next.unwrap();
                let moved = settled(segment, anchor, direction, distance);
                let segments1 = segments.update(id as int, Some(moved));
                let way = path(segments, next, fuel);
                let rest = path(segments, segment.next, (fuel - 1) as nat);
                assert(way[0] == id);
                lemma_path_of_same_links(segments1, segments, segment.next, (fuel - 1) as nat);
                if rest.contains(j as usize) {
                    let k = choose|k: int| 0 <= k < rest.len() && rest[k] == j as usize;
                    assert(way[k + 1] == j as usize);
                }
                lemma_pass_off_the_way(
                    segments1,
                    segment.next,
                    moved.position,
                    moved.facing,
                    segment.distance,
                    (fuel - 1) as nat,
                    j,
                );
            }
        },
    }
}

/// Every segment on the way of a pass has settled with the segment before
/// it, as that one stands after the pass, as its anchor; the first with the
/// anchor from which the pass started.
pub proof fn lemma_pass_on_the_way(
    segments: Seq<Option<Segment>>,
    next: Option<usize>,
    anchor: Vec2,
    direction: Vec2,
    distance: int,
    fuel: nat,
    k: int,
)
    requires
        ends_within(segments, next, fuel),
        0 <= k < path(segments, next, fuel).len(),
    ensures
        ({
            let out = after_pass(segments, next, anchor, direction, distance, fuel);
            let way = path(segments, next, fuel);
            &&& way[k] < segments.len()
            &&& segments[way[k] as int] is Some
            &&& out[way[k] as int] == Some(
                settled(
                    segments[way[k] as int].unwrap(),
                    anchor_position(out, way, k, anchor),
                    anchor_facing(out, way, k, direction),
                    anchor_distance(segments, way, k, distance),
                ),
            )
        }),
    decreases fuel,
{
    let segment = live(segments, next).unwrap();
    let id = next.unwrap();
    let moved = settled(segment, anchor, direction, distance);
    let segments1 = segments.update(id as int, Some(moved));
    let rest = path(segments, segment.next, (fuel - 1) as nat);
    // The first segment settles and is not passed again: it stays as it has
    // settled.
    lemma_path_of_same_links(segments1, segments, segment.next, (fuel - 1) as nat);
    lemma_no_way_back(segments, id, fuel);
    lemma_pass_off_the_way(
        segments1,
        segment.next,
        moved.position,
        moved.facing,
        segment.distance,
        (fuel - 1) as nat,
        id as int,
    );
    if k > 0 {
        // The others are on the rest of the way, where they and their
        // anchors are as they were before the first settled.
        assert(rest.contains(rest[k - 1]));
        lemma_pass_on_the_way(
            segments1,
            segment.next,
            moved.position,
            moved.facing,
            segment.distance,
            (fuel - 1) as nat,
            k - 1,
        );
        if k > 1 {
            assert(rest.contains(rest[k - 2]));
            lemma_path_steps(segments, segment.next, (fuel - 1) as nat, k - 2);
        }
    }
}

/// The way of the pass of a well-formed chain is its order without the
/// head, and the head is not on it.
pub proof fn lemma_way_of_the_pass(chain: ChainModel)
    requires
        chain.well_formed(),
    ensures
        ({
            let count = chain.segments.len();
            let way = path(chain.segments, chain.head_segment().next, count);
            &&& ends_within(chain.segments, chain.head_segment().next, count)
            &&& chain.order() == seq![chain.head] + way
            &&& !way.contains(chain.head)
        }),
{
    let count = chain.segments.len();
    let next = chain.head_segment().next;
    lemma_no_way_back(chain.segments, chain.head, count);
    lemma_path_with_more_fuel(chain.segments, next, (count - 1) as nat, count);
}

/// A pass moves nothing but the segments behind the head: the head, the
/// segments behind a broken link and those that are no part of the chain
/// stay as they were.
pub proof fn lemma_pass_leaves_the_rest(chain: ChainModel, j: int)
    requires
        chain.well_formed(),
        0 <= j < chain.segments.len(),
        j == chain.head || !chain.order().contains(j as usize),
    ensures
        passed(chain).segments.len() == chain.segments.len(),
        passed(chain).segments[j] == chain.segments[j],
{
    let count = chain.segments.len();
    let next = chain.head_segment().next;
    let way = path(chain.segments, next, count);
    lemma_way_of_the_pass(chain);
    if way.contains(j as usize) {
        let k = choose|k: int| 0 <= k < way.len() && way[k] == j as usize;
        assert(chain.order()[k + 1] == j as usize);
    }
    lemma_pass_off_the_way(
        chain.segments,
        next,
        chain.head_segment().position,
        chain.direction,
        chain.head_segment().distance,
        count,
        j,
    );
}

/// A pass keeps the order of the chain.
pub proof fn lemma_pass_keeps_order(chain: ChainModel)
    requires
        chain.well_formed(),
    ensures
        passed(chain).order() == chain.order(),
        same_links(passed(chain).segments, chain.segments),
{
    let count = chain.segments.len();
    lemma_pass_keeps_links(
        chain.segments,
        chain.head_segment().next,
        chain.head_segment().position,
        chain.direction,
        chain.head_segment().distance,
        count,
    );
    lemma_path_of_same_links(passed(chain).segments, chain.segments, Some(chain.head), count);
}

/// The segment before the `k`-th of the chain, as it stands after the pass.
pub open spec fn anchor_after_pass(chain: ChainModel, k: int) -> Segment {
    passed(chain).segments[chain.order()[k - 1] as int].unwrap()
}

/// The `k`-th segment of the chain, as it stood before the pass.
pub open spec fn segment_before_pass(chain: ChainModel, k: int) -> Segment {
    chain.segments[chain.order()[k] as int].unwrap()
}

/// The `k`-th segment of the chain, as it stands after the pass.
pub open spec fn segment_after_pass(chain: ChainModel, k: int) -> Segment {
    passed(chain).segments[chain.order()[k] as int].unwrap()
}

/// After a pass, every segment behind the head has settled with the segment
/// before it, as that one stands after the pass, as its anchor.
pub proof fn lemma_pass_settles_every_joint(chain: ChainModel, k: int)
    requires
        chain.well_formed(),
        1 <= k < chain.order().len(),
    ensures
        segment_ok(segment_before_pass(chain, k)),
        segment_ok(segment_before_pass(chain, k - 1)),
        anchor_after_pass(chain, k).distance == segment_before_pass(chain, k - 1).distance,
        segment_after_pass(chain, k) == settled(
            segment_before_pass(chain, k),
            anchor_after_pass(chain, k).position,
            anchor_after_pass(chain, k).facing,
            anchor_after_pass(chain, k).distance,
        ),
{
    let count = chain.segments.len();
    let next = chain.head_segment().next;
    // The chain is the head and the way of the pass behind it; the head is
    // the anchor of the first segment on the way, and stays as it was.
    lemma_way_of_the_pass(chain);
    lemma_pass_on_the_way(
        chain.segments,
        next,
        chain.head_segment().position,
        chain.direction,
        chain.head_segment().distance,
        count,
        k - 1,
    );
    lemma_pass_leaves_the_rest(chain, chain.head as int);
    if k > 1 {
        lemma_pass_on_the_way(
            chain.segments,
            next,
            chain.head_segment().position,
            chain.direction,
            chain.head_segment().distance,
            count,
            k - 2,
        );
    }
}

/// After a pass, every segment behind the head is as far from the segment
/// before it as a link is long, within two grid steps, unless it lay where
/// that segment came to stand and so had no direction to go in. The link is
/// its own, or, where the bend of the chain had to be cut back, that of the
/// segment before it; where the two are equally long, it is the one length.
pub proof fn lemma_pass_keeps_distance(chain: ChainModel, k: int)
    requires
        chain.well_formed(),
        1 <= k < chain.order().len(),
        segment_before_pass(chain, k).position != anchor_after_pass(chain, k).position,
    ensures
        ({
            let anchor = anchor_after_pass(chain, k);
            let before = segment_before_pass(chain, k);
            let reach = joint_reach(
                before.position,
                before.distance,
                before.limit,
                anchor.position,
                anchor.facing,
                anchor.distance,
            );
            &&& near_length(anchor.position.minus(segment_after_pass(chain, k).position), reach)
            &&& reach == before.distance || reach == anchor.distance
            &&& clamped_direction(
                anchor.position.minus(before.position),
                anchor.facing,
                before.limit,
            ) is None ==> reach == before.distance
        }),
{
    lemma_pass_settles_every_joint(chain, k);
    let anchor = anchor_after_pass(chain, k);
    let before = segment_before_pass(chain, k);
    lemma_followed_distance(
        before.position,
        before.distance,
        before.limit,
        anchor.position,
        anchor.facing,
        anchor.distance,
    );
}

/// After a pass, no joint bends by more than its limit, as far as rounding
/// allows: the segment behind the joint looks along a direction, that of
/// [`joint_aim`], to which the turn from the direction of the segment before
/// it is within the limit, and it does so within one grid step across. A
/// segment that lay where the segment before it came to stand looks nowhere.
pub proof fn lemma_pass_keeps_bend(chain: ChainModel, k: int)
    requires
        chain.well_formed(),
        1 <= k < chain.order().len(),
    ensures
        ({
            let anchor = anchor_after_pass(chain, k);
            let before = segment_before_pass(chain, k);
            let after = segment_after_pass(chain, k);
            let aim = joint_aim(before.position, before.limit, anchor.position, anchor.facing);
            &&& within_limit(turn_between(anchor.facing, aim), before.limit)
            &&& after.facing == anchor.position.minus(after.position)
            &&& before.position != anchor.position ==> near_ray(aim, after.facing)
            &&& before.position == anchor.position ==> after.facing.is_zero()
        }),
{
    lemma_pass_settles_every_joint(chain, k);
    let anchor = anchor_after_pass(chain, k);
    let before = segment_before_pass(chain, k);
    lemma_joint_aim_within(before.position, before.limit, anchor.position, anchor.facing);
    lemma_joint_aim_zero(before.position, before.limit, anchor.position, anchor.facing);
    lemma_followed_arm(
        before.position,
        before.distance,
        before.limit,
        anchor.position,
        anchor.facing,
        anchor.distance,
    );
    if before.position != anchor.position {
        lemma_followed_direction(
            before.position,
            before.distance,
            before.limit,
            anchor.position,
            anchor.facing,
            anchor.distance,
        );
    }
}

/// A tick without a target, without time, or with the head within its
/// stopping radius of the target changes nothing.
pub proof fn lemma_rest_changes_nothing(chain: ChainModel, target: Option<Vec2>, dt_micros: int)
    requires
        target matches Some(t) ==> at_rest(
            chain.head_segment().position,
            t,
            chain.stop_radius_sq,
            dt_micros,
        ),
    ensures
        propagated(chain, target, dt_micros) == chain,
{
}

/// A tick in which the head moves is a pass over the chain with the head at
/// its new place, and that chain is well-formed: what holds after every pass
/// holds after such a tick.
pub proof fn lemma_tick_is_a_pass(chain: ChainModel, target: Vec2, dt_micros: int)
    requires
        chain.well_formed(),
        target.within(WORLD_MAX as int),
        !at_rest(chain.head_segment().position, target, chain.stop_radius_sq, dt_micros),
    ensures
        ({
            let moved = steered(
                chain.head_segment().position,
                target,
                hint_of(chain),
                chain.speed,
                chain.max_turn,
                chain.stop_radius_sq,
                dt_micros,
            ).unwrap();
            let turned = with_head_at(chain, target, moved.0, moved.1);
            &&& turned.well_formed()
            &&& turned.order() == chain.order()
            &&& propagated(chain, Some(target), dt_micros) == passed(turned)
        }),
{
    let moved = steered(
        chain.head_segment().position,
        target,
        hint_of(chain),
        chain.speed,
        chain.max_turn,
        chain.stop_radius_sq,
        dt_micros,
    ).unwrap();
    let turned = with_head_at(chain, target, moved.0, moved.1);
    let raw = target.minus(chain.head_segment().position);
    let aim = steered_direction(raw, hint_of(chain), chain.max_turn);
    lemma_normalized_within(aim, HEADING_LENGTH as int);
    lemma_path_of_same_links(
        turned.segments,
        chain.segments,
        Some(chain.head),
        chain.segments.len(),
    );
    assert forall|i: int|
        0 <= i < turned.segments.len() && (#[trigger] turned.segments[i]) is Some implies segment_ok(
        turned.segments[i].unwrap(),
    ) by {
        if i != chain.head {
            assert(turned.segments[i] == chain.segments[i]);
        }
    }
}

/// The `k`-th segment of the chain, as it stands after a tick for `target`.
pub open spec fn segment_after_tick(
    chain: ChainModel,
    target: Vec2,
    dt_micros: int,
    k: int,
) -> Segment {
    propagated(chain, Some(target), dt_micros).segments[chain.order()[k] as int].unwrap()
}

/// The chain with its head where a tick for `target` takes it, before the
/// segments have followed.
pub open spec fn turned(chain: ChainModel, target: Vec2, dt_micros: int) -> ChainModel {
    let moved = steered(
        chain.head_segment().position,
        target,
        hint_of(chain),
        chain.speed,
        chain.max_turn,
        chain.stop_radius_sq,
        dt_micros,
    ).unwrap();
    with_head_at(chain, target, moved.0, moved.1)
}

/// A joint of a tick is a joint of the pass over the chain with the head at
/// its new place: the segment behind the joint is in that chain as it was,
/// and it and its anchor come out of the tick as they come out of that pass.
pub proof fn lemma_tick_joint_is_a_pass_joint(
    chain: ChainModel,
    target: Vec2,
    dt_micros: int,
    k: int,
)
    requires
        chain.well_formed(),
        target.within(WORLD_MAX as int),
        !at_rest(chain.head_segment().position, target, chain.stop_radius_sq, dt_micros),
        1 <= k < chain.order().len(),
    ensures
        turned(chain, target, dt_micros).well_formed(),
        turned(chain, target, dt_micros).order() == chain.order(),
        segment_before_pass(turned(chain, target, dt_micros), k) == segment_before_pass(chain, k),
        segment_after_pass(turned(chain, target, dt_micros), k) == segment_after_tick(
            chain,
            target,
            dt_micros,
            k,
        ),
        anchor_after_pass(turned(chain, target, dt_micros), k) == segment_after_tick(
            chain,
            target,
            dt_micros,
            k - 1,
        ),
        segment_before_pass(turned(chain, target, dt_micros), k - 1).distance
            == segment_before_pass(chain, k - 1).distance,
{
    lemma_tick_is_a_pass(chain, target, dt_micros);
    lemma_way_of_the_pass(chain);
    lemma_path_steps(chain.segments, Some(chain.head), chain.segments.len(), k);
    lemma_path_steps(chain.segments, Some(chain.head), chain.segments.len(), k - 1);
}

/// What a tick in which the head moves does to the `k`-th segment behind the
/// head: the segment, as it stood, settles with the segment before it, as
/// that one stands after the tick, as its anchor.
pub proof fn lemma_tick_settles_every_joint(
    chain: ChainModel,
    target: Vec2,
    dt_micros: int,
    k: int,
)
    requires
        chain.well_formed(),
        target.within(WORLD_MAX as int),
        !at_rest(chain.head_segment().position, target, chain.stop_radius_sq, dt_micros),
        1 <= k < chain.order().len(),
    ensures
        segment_ok(segment_before_pass(chain, k)),
        segment_ok(segment_before_pass(chain, k - 1)),
        segment_after_tick(chain, target, dt_micros, k - 1).distance == segment_before_pass(
            chain,
            k - 1,
        ).distance,
        segment_after_tick(chain, target, dt_micros, k) == settled(
            segment_before_pass(chain, k),
            segment_after_tick(chain, target, dt_micros, k - 1).position,
            segment_after_tick(chain, target, dt_micros, k - 1).facing,
            segment_after_tick(chain, target, dt_micros, k - 1).distance,
        ),
{
    lemma_tick_joint_is_a_pass_joint(chain, target, dt_micros, k);
    lemma_pass_settles_every_joint(chain, k);
    lemma_pass_settles_every_joint(turned(chain, target, dt_micros), k);
}

/// After a tick in which the head moves, every segment behind the head is as
/// far from the segment before it as a link is long, within two grid steps,
/// unless it lay where that segment came to stand. The link is its own, or,
/// where the bend of the chain had to be cut back, that of the segment
/// before it.
pub proof fn lemma_tick_keeps_distance(chain: ChainModel, target: Vec2, dt_micros: int, k: int)
    requires
        chain.well_formed(),
        target.within(WORLD_MAX as int),
        !at_rest(chain.head_segment().position, target, chain.stop_radius_sq, dt_micros),
        1 <= k < chain.order().len(),
        segment_before_pass(chain, k).position != segment_after_tick(
            chain,
            target,
            dt_micros,
            k - 1,
        ).position,
    ensures
        ({
            let anchor = segment_after_tick(chain, target, dt_micros, k - 1);
            let now = segment_after_tick(chain, target, dt_micros, k);
            let gap = anchor.position.minus(now.position);
            near_length(gap, now.distance) || near_length(gap, anchor.distance)
        }),
{
    lemma_tick_joint_is_a_pass_joint(chain, target, dt_micros, k);
    lemma_pass_settles_every_joint(turned(chain, target, dt_micros), k);
    lemma_pass_keeps_distance(turned(chain, target, dt_micros), k);
}

/// After a tick in which the head moves, no joint bends by more than its
/// limit, as far as rounding allows: see [`lemma_pass_keeps_bend`].
pub proof fn lemma_tick_keeps_bend(chain: ChainModel, target: Vec2, dt_micros: int, k: int)
    requires
        chain.well_formed(),
        target.within(WORLD_MAX as int),
        !at_rest(chain.head_segment().position, target, chain.stop_radius_sq, dt_micros),
        1 <= k < chain.order().len(),
    ensures
        ({
            let anchor = segment_after_tick(chain, target, dt_micros, k - 1);
            let before = segment_before_pass(chain, k);
            let now = segment_after_tick(chain, target, dt_micros, k);
            let aim = joint_aim(before.position, before.limit, anchor.position, anchor.facing);
            &&& within_limit(turn_between(anchor.facing, aim), now.limit)
            &&& now.facing == anchor.position.minus(now.position)
            &&& before.position != anchor.position ==> near_ray(aim, now.facing)
            &&& before.position == anchor.position ==> now.facing.is_zero()
        }),
{
    lemma_tick_joint_is_a_pass_joint(chain, target, dt_micros, k);
    lemma_pass_settles_every_joint(turned(chain, target, dt_micros), k);
    lemma_pass_keeps_bend(turned(chain, target, dt_micros), k);
}

/// A tick moves nothing but the chain: the segments behind a broken link and
/// those that are no part of the chain stay as they were.
pub proof fn lemma_tick_leaves_the_rest(
    chain: ChainModel,
    target: Option<Vec2>,
    dt_micros: int,
    j: int,
)
    requires
        chain.well_formed(),
        target matches Some(t) ==> t.within(WORLD_MAX as int),
        0 <= j < chain.segments.len(),
        !chain.order().contains(j as usize),
    ensures
        propagated(chain, target, dt_micros).segments.len() == chain.segments.len(),
        propagated(chain, target, dt_micros).segments[j] == chain.segments[j],
{
    if let Some(t) = target {
        if !at_rest(chain.head_segment().position, t, chain.stop_radius_sq, dt_micros) {
            let moved = steered(
                chain.head_segment().position,
                t,
                hint_of(chain),
                chain.speed,
                chain.max_turn,
                chain.stop_radius_sq,
                dt_micros,
            ).unwrap();
            let turned = with_head_at(chain, t, moved.0, moved.1);
            lemma_tick_is_a_pass(chain, t, dt_micros);
            lemma_pass_leaves_the_rest(turned, j);
            assert(chain.order()[0] == chain.head);
        }
    }
}

/// After a pass, the `k`-th segment of the chain is within `k` links of the
/// longest length of the head, and so in reach.
pub proof fn lemma_pass_stays_in_reach(chain: ChainModel, k: int)
    requires
        chain.well_formed(),
        0 <= k < chain.order().len(),
    ensures
        k < SEGMENTS_MAX,
        segment_after_pass(chain, k).position.within(WORLD_MAX + k * 0xffff_ffff),
        segment_ok(segment_after_pass(chain, k)),
        chain.order()[k] < chain.segments.len(),
        passed(chain).segments[chain.order()[k] as int] is Some,
    decreases k,
{
    let count = chain.segments.len();
    lemma_path_steps(chain.segments, Some(chain.head), count, k);
    if k == 0 {
        lemma_pass_leaves_the_rest(chain, chain.head as int);
    } else {
        lemma_pass_stays_in_reach(chain, k - 1);
        lemma_pass_settles_every_joint(chain, k);
        let anchor = anchor_after_pass(chain, k);
        let before = segment_before_pass(chain, k);
        let reach = joint_reach(
            before.position,
            before.distance,
            before.limit,
            anchor.position,
            anchor.facing,
            anchor.distance,
        );
        lemma_followed_arm(
            before.position,
            before.distance,
            before.limit,
            anchor.position,
            anchor.facing,
            anchor.distance,
        );
        lemma_normalized_within(
            joint_aim(before.position, before.limit, anchor.position, anchor.facing),
            reach,
        );
        lemma_pass_keeps_links(
            chain.segments,
            chain.head_segment().next,
            chain.head_segment().position,
            chain.direction,
            chain.head_segment().distance,
            count,
        );
    }
}

/// A pass keeps a well-formed chain well-formed.
pub proof fn lemma_pass_keeps_well_formed(chain: ChainModel)
    requires
        chain.well_formed(),
    ensures
        passed(chain).well_formed(),
{
    let after = passed(chain);
    let count = chain.segments.len();
    lemma_pass_keeps_order(chain);
    lemma_pass_leaves_the_rest(chain, chain.head as int);
    lemma_path_of_same_links(after.segments, chain.segments, Some(chain.head), count);
    assert forall|i: int| 0 <= i < count && (#[trigger] after.segments[i]) is Some implies segment_ok(
        after.segments[i].unwrap(),
    ) by {
        if chain.order().contains(i as usize) {
            let k = choose|k: int| 0 <= k < chain.order().len() && chain.order()[k] == i as usize;
            lemma_pass_stays_in_reach(chain, k);
        } else {
            lemma_pass_leaves_the_rest(chain, i);
        }
    }
}

/// A tick keeps a well-formed chain well-formed.
pub proof fn lemma_tick_keeps_well_formed(chain: ChainModel, target: Option<Vec2>, dt_micros: int)
    requires
        chain.well_formed(),
        target matches Some(t) ==> t.within(WORLD_MAX as int),
    ensures
        propagated(chain, target, dt_micros).well_formed(),
{
    if let Some(t) = target {
        if !at_rest(chain.head_segment().position, t, chain.stop_radius_sq, dt_micros) {
            lemma_tick_is_a_pass(chain, t, dt_micros);
            let moved = steered(
                chain.head_segment().position,
                t,
                hint_of(chain),
                chain.speed,
                chain.max_turn,
                chain.stop_radius_sq,
                dt_micros,
            ).unwrap();
            lemma_pass_keeps_well_formed(with_head_at(chain, t, moved.0, moved.1));
        }
    }
}

} // verus!
