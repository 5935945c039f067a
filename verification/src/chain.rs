//! The chain: its segments, and the pass that makes them follow the head.

use vstd::prelude::*;
use crate::angle::{is_limit, Angle, SPAN_MAX};
use crate::joint::{follow, followed, POSITION_MAX};
use crate::links::{
    end_of, ends_within, lemma_end_of_same_links, lemma_end_with_more_fuel, lemma_no_way_back,
    lemma_path_of_same_links, lemma_path_with_more_fuel, live, path, same_links, ChainEnd,
    Segment,
};
use crate::steering::{
    at_rest, brought_into_world, into_world, steer, steered, Settings, HEADING_LENGTH, WORLD_MAX,
};
use crate::vector::{Vec2, Vector};

verus! {

/// The largest number of slots of a chain.
pub const SEGMENTS_MAX: usize = 0x1000;

/// One segment of a chain.
#[derive(Clone, Copy, Debug, PartialEq, Eq)]
pub struct ChainNode {
    /// The slot of the segment behind this one.
    pub next: Option<usize>,
    /// The length of the link to the segment before this one.
    pub distance: u32,
    /// How far the chain may bend at the joint before this segment.
    pub angle_threshold: Angle,
    pub position: Vector,
    /// The direction in which the segment looks: to the segment before it.
    pub facing: Vector,
}

impl View for ChainNode {
    type V = Segment;

    open spec fn view(&self) -> Segment {
        Segment {
            next: self.next,
            distance: self.distance as int,
            limit: self.angle_threshold@,
            position: self.position@,
            facing: self.facing@,
        }
    }
}

/// What the first segment of a chain has beyond the others.
#[derive(Clone, Copy, Debug, PartialEq, Eq)]
pub struct ChainHead {
    /// The point that the head last steered for.
    pub target: Vector,
    /// The direction in which the head last moved.
    pub direction: Vector,
}

/// A chain as contracts see it.
pub struct ChainModel {
    /// The slots, each empty or with a segment.
    pub segments: Seq<Option<Segment>>,
    /// The slot of the head.
    pub head: usize,
    pub target: Vec2,
    pub direction: Vec2,
    pub speed: int,
    pub max_turn: Vec2,
    pub stop_radius_sq: int,
}

/// What a slot holds, as contracts see it.
pub open spec fn slot_view(slot: Option<ChainNode>) -> Option<Segment> {
    match slot {
        Some(node) => Some(node@),
        None => None,
    }
}

/// What a row of slots holds, as contracts see it.
pub open spec fn slots_view(slots: Seq<Option<ChainNode>>) -> Seq<Option<Segment>> {
    Seq::new(slots.len(), |i: int| slot_view(slots[i]))
}

/// A segment that a pass can move.
pub open spec fn segment_ok(segment: Segment) -> bool {
    &&& 0 < segment.distance <= 0xffff_ffff
    &&& is_limit(segment.limit)
    &&& segment.position.within(POSITION_MAX as int)
    &&& segment.facing.within(SPAN_MAX as int)
}

impl ChainModel {
    /// The segment at the head. The slot of the head of a well-formed chain
    /// is never empty.
    pub open spec fn head_segment(self) -> Segment {
        self.segments[self.head as int].unwrap()
    }

    /// The slots of the segments from the head to the tail, or to the first
    /// broken link.
    pub open spec fn order(self) -> Seq<usize> {
        path(self.segments, Some(self.head), self.segments.len())
    }

    /// How the chain ends: at its tail, or at a broken link.
    pub open spec fn end(self) -> ChainEnd {
        end_of(self.segments, Some(self.head), self.segments.len())
    }

    /// The chain is one that the functions of this crate keep: it has a
    /// head, in the world, that looks where it is heading; its links lead
    /// from the head to an end without coming back; and every segment has a
    /// link of positive length, a limit for its joint, and a position in
    /// reach.
    pub open spec fn well_formed(self) -> bool {
        &&& self.segments.len() <= SEGMENTS_MAX
        &&& self.head < self.segments.len()
        &&& self.segments[self.head as int] is Some
        &&& forall|i: int|
            0 <= i < self.segments.len() && (#[trigger] self.segments[i]) is Some ==> segment_ok(
                self.segments[i].unwrap(),
            )
        &&& self.head_segment().position.within(WORLD_MAX as int)
        &&& self.head_segment().facing == self.direction
        &&& self.target.within(WORLD_MAX as int)
        &&& is_limit(self.max_turn)
        &&& 0 <= self.speed <= u32::MAX
        &&& 0 <= self.stop_radius_sq <= u64::MAX
        &&& ends_within(self.segments, Some(self.head), self.segments.len())
    }
}

/// The segment after it has followed its anchor, which stands at `anchor`,
/// looks in `direction` and has a link `distance` long: it is where
/// [`followed`] puts it, and looks to the anchor from there.
pub open spec fn settled(segment: Segment, anchor: Vec2, direction: Vec2, distance: int) -> Segment {
    let position = followed(
        segment.position,
        segment.distance,
        segment.limit,
        anchor,
        direction,
        distance,
    );
    Segment { position, facing: anchor.minus(position), ..segment }
}

/// The slots after the segments from `next` on have followed, one after the
/// other, the segment before them. The first settles with an anchor at
/// `anchor` that looks in `direction` and has a link `distance` long, and is
/// the anchor of the one behind it. The pass ends at the tail, at a broken
/// link, or after `fuel` segments.
pub open spec fn after_pass(
    segments: Seq<Option<Segment>>,
    next: Option<usize>,
    anchor: Vec2,
    direction: Vec2,
    distance: int,
    fuel: nat,
) -> Seq<Option<Segment>>
    decreases fuel,
{
    match live(segments, next) {
        None => segments,
        Some(segment) => if fuel == 0 {
            segments
        } else {
            let moved = settled(segment, anchor, direction, distance);
            after_pass(
                segments.update(next.unwrap() as int, Some(moved)),
                segment.next,
                moved.position,
                moved.facing,
                segment.distance,
                (fuel - 1) as nat,
            )
        },
    }
}

/// The chain after its segments have followed the head, which stays.
pub open spec fn passed(chain: ChainModel) -> ChainModel {
    ChainModel {
        segments: after_pass(
            chain.segments,
            chain.head_segment().next,
            chain.head_segment().position,
            chain.direction,
            chain.head_segment().distance,
            chain.segments.len(),
        ),
        ..chain
    }
}

/// The direction in which the segment behind the head pushes: from that
/// segment to the head. `None` where no segment is behind the head.
pub open spec fn hint_of(chain: ChainModel) -> Option<Vec2> {
    match live(chain.segments, chain.head_segment().next) {
        Some(behind) => Some(chain.head_segment().position.minus(behind.position)),
        None => None,
    }
}

/// The chain with its head at `position`, heading and looking in
/// `direction`, for `target`.
pub open spec fn with_head_at(chain: ChainModel, target: Vec2, position: Vec2, direction: Vec2) -> ChainModel {
    ChainModel {
        segments: chain.segments.update(
            chain.head as int,
            Some(Segment { position, facing: direction, ..chain.head_segment() }),
        ),
        target,
        direction,
        ..chain
    }
}

/// The chain after one tick of `dt_micros` microseconds in which its head
/// steers for `target`. Without a target, or where the head is to stay
/// where it is, nothing moves; otherwise the head moves as [`steered`] says,
/// and the segments follow it.
pub open spec fn propagated(chain: ChainModel, target: Option<Vec2>, dt_micros: int) -> ChainModel {
    match target {
        None => chain,
        Some(t) => match steered(
            chain.head_segment().position,
            t,
            hint_of(chain),
            chain.speed,
            chain.max_turn,
            chain.stop_radius_sq,
            dt_micros,
        ) {
            None => chain,
            Some(moved) => passed(with_head_at(chain, t, moved.0, moved.1)),
        },
    }
}

/// What a tick did.
#[derive(Clone, Copy, Debug, PartialEq, Eq, Structural)]
pub enum Tick {
    /// Nothing: there was no target.
    NoTarget,
    /// Nothing: the head was within its stopping radius of the target, or
    /// no time had passed.
    AtRest,
    /// The head moved, and the segments followed it to the end given here.
    Moved(ChainEnd),
}

/// What a tick of `dt_micros` microseconds for `target` does to the chain.
pub open spec fn tick_of(chain: ChainModel, target: Option<Vec2>, dt_micros: int) -> Tick {
    match target {
        None => Tick::NoTarget,
        Some(t) => if at_rest(chain.head_segment().position, t, chain.stop_radius_sq, dt_micros) {
            Tick::AtRest
        } else {
            Tick::Moved(chain.end())
        },
    }
}

/// A chain of segments, the first of which is the head.
#[derive(Clone, Debug)]
pub struct Chain {
    nodes: Vec<Option<ChainNode>>,
    head_id: usize,
    head: ChainHead,
    settings: Settings,
}

impl View for Chain {
    type V = ChainModel;

    closed spec fn view(&self) -> ChainModel {
        ChainModel {
            segments: slots_view(self.nodes@),
            head: self.head_id,
            target: self.head.target@,
            direction: self.head.direction@,
            speed: self.settings.speed as int,
            max_turn: self.settings.max_turn@,
            stop_radius_sq: self.settings.stop_radius_sq as int,
        }
    }
}

impl Chain {
    /// The chain is well-formed: see [`ChainModel::well_formed`].
    pub open spec fn wf(&self) -> bool {
        self@.well_formed()
    }
}

/// Makes every segment behind the head follow the one before it, from the
/// head to the tail, or to the first broken link; the head stays.
///
/// This is the bare pass. It knows neither a target nor time and settles
/// every joint whenever it is called: a chain whose joints are settled stays
/// as it is, within rounding, and any other is pulled into shape. That
/// nothing moves while the head rests is what [`Chain::propagate`] sees to,
/// which makes no pass in that case.
///
/// Each segment goes where [`follow`] puts it, with the segment before it as
/// its anchor, and looks to that anchor from there. Segments behind a broken
/// link, and segments that are no part of the chain, stay as they are. The
/// result says where the pass ended.
pub fn move_chain(chain: &mut Chain) -> (end: ChainEnd)
    requires
        old(chain).wf(),
    ensures
        final(chain).wf(),
        final(chain)@ == passed(old(chain)@),
        end == old(chain)@.end(),
{
    let ghost before = chain@;
    let count = chain.nodes.len();
    let head_id = chain.head_id;
    let head_node = match chain.nodes[head_id] {
        Some(node) => node,
        None => {
            return ChainEnd::BrokenLink(head_id);
        },
    };
    let mut anchor = head_node.position;
    let mut direction = chain.head.direction;
    let mut distance: u32 = head_node.distance;
    let mut next = head_node.next;
    let mut fuel: usize = count;
    let mut done = false;
    proof {
        lemma_no_way_back(before.segments, head_id, count as nat);
        lemma_path_with_more_fuel(before.segments, next, (count - 1) as nat, count as nat);
        lemma_end_with_more_fuel(before.segments, next, (count - 1) as nat, count as nat);
    }
    while !done
        invariant
            chain.nodes.len() == count,
            count <= SEGMENTS_MAX,
            head_id < count,
            chain@ == (ChainModel { segments: chain@.segments, ..before }),
            chain@.segments == slots_view(chain.nodes@),
            same_links(chain@.segments, before.segments),
            forall|i: int|
                0 <= i < count && (#[trigger] chain@.segments[i]) is Some ==> segment_ok(
                    chain@.segments[i].unwrap(),
                ),
            chain@.segments[head_id as int] == before.segments[head_id as int],
            fuel <= count,
            !path(before.segments, next, fuel as nat).contains(head_id),
            ends_within(before.segments, next, fuel as nat),
            anchor@.within(WORLD_MAX + (count - fuel) * 0xffff_ffff),
            direction@.within(SPAN_MAX as int),
            after_pass(chain@.segments, next, anchor@, direction@, distance as int, fuel as nat)
                == passed(before).segments,
            end_of(before.segments, next, fuel as nat) == before.end(),
            done ==> live(chain@.segments, next) is None,
        decreases 2 * fuel + (if done { 0int } else { 1int }),
    {
        let slot = match next {
            Some(id) => if id < count {
                chain.nodes[id]
            } else {
                None
            },
            None => None,
        };
        match slot {
            None => {
                done = true;
            },
            Some(node) => {
                let id = next.unwrap();
                let ghost segments = chain@.segments;
                let ghost rest = path(before.segments, node.next, (fuel - 1) as nat);
                proof {
                    // The segment is the next on the way, and the head is
                    // not on the way: the segment is not the head.
                    assert((seq![id] + rest)[0] == id);
                }
                let position = follow(
                    node.position,
                    node.distance,
                    node.angle_threshold,
                    anchor,
                    direction,
                    distance,
                );
                let facing = anchor.minus(&position);
                let moved = ChainNode { position, facing, ..node };
                chain.nodes.set(id, Some(moved));
                proof {
                    assert(chain@.segments =~= segments.update(id as int, Some(moved@)));
                    // Nor is the head on the rest of the way.
                    assert forall|k: int| 0 <= k < rest.len() implies rest[k] != head_id by {
                        assert((seq![id] + rest)[k + 1] == rest[k]);
                    }
                }
                anchor = position;
                direction = facing;
                distance = node.distance;
                next = node.next;
                fuel = fuel - 1;
            },
        }
    }
    proof {
        lemma_path_of_same_links(
            chain@.segments,
            before.segments,
            Some(head_id),
            count as nat,
        );
    }
    match next {
        Some(id) => ChainEnd::BrokenLink(id),
        None => ChainEnd::Tail,
    }
}

/// Why a chain cannot be made.
#[derive(Clone, Copy, Debug, PartialEq, Eq, Structural)]
pub enum ConfigError {
    /// There are more than `SEGMENTS_MAX` slots.
    TooManySegments,
    /// The slot named as that of the head does not exist or is empty.
    NoHead,
    /// A segment has a link of length zero.
    ZeroDistance,
    /// The limit of a joint, or that of the head's turn, is no angle between
    /// zero and a half turn with coordinates of at most `ANGLE_MAX`.
    BadAngle,
    /// A position is out of reach, the head or its target is out of the
    /// world, or a segment looks along a vector that is too long.
    OutOfRange,
    /// The links lead from the head back to a segment already passed.
    Cycle,
}

/// The link of the segment has no length that a pass can keep.
pub open spec fn bad_distance(segment: Segment) -> bool {
    !(0 < segment.distance <= 0xffff_ffff)
}

/// The position of the segment is out of reach, or it looks along a vector
/// that is too long.
pub open spec fn out_of_range(segment: Segment) -> bool {
    !segment.position.within(POSITION_MAX as int) || !segment.facing.within(SPAN_MAX as int)
}

/// One of the first `upto` slots holds a segment with a bad link.
pub open spec fn any_bad_distance(segments: Seq<Option<Segment>>, upto: int) -> bool {
    exists|i: int| 0 <= i < upto && (#[trigger] segments[i]) is Some && bad_distance(segments[i].unwrap())
}

/// One of the first `upto` slots holds a segment whose joint has no limit.
pub open spec fn any_bad_angle(segments: Seq<Option<Segment>>, upto: int) -> bool {
    exists|i: int| 0 <= i < upto && (#[trigger] segments[i]) is Some && !is_limit(segments[i].unwrap().limit)
}

/// One of the first `upto` slots holds a segment that is out of range.
pub open spec fn any_out_of_range(segments: Seq<Option<Segment>>, upto: int) -> bool {
    exists|i: int| 0 <= i < upto && (#[trigger] segments[i]) is Some && out_of_range(segments[i].unwrap())
}

/// The chain that [`Chain::new`] makes of its arguments, if it makes one:
/// the head looks where it is heading, and all else is as given.
pub open spec fn assembled(
    segments: Seq<Option<Segment>>,
    head: usize,
    target: Vec2,
    direction: Vec2,
    speed: int,
    max_turn: Vec2,
    stop_radius_sq: int,
) -> ChainModel {
    ChainModel {
        segments: if head < segments.len() && segments[head as int] is Some {
            segments.update(
                head as int,
                Some(Segment { facing: direction, ..segments[head as int].unwrap() }),
            )
        } else {
            segments
        },
        head,
        target,
        direction,
        speed,
        max_turn,
        stop_radius_sq,
    }
}

/// What is wrong with a chain, if anything is; of several things the first
/// in the order of [`ConfigError`].
pub open spec fn config_error(chain: ChainModel) -> Option<ConfigError> {
    let count = chain.segments.len() as int;
    if count > SEGMENTS_MAX {
        Some(ConfigError::TooManySegments)
    } else if !(chain.head < count && chain.segments[chain.head as int] is Some) {
        Some(ConfigError::NoHead)
    } else if any_bad_distance(chain.segments, count) {
        Some(ConfigError::ZeroDistance)
    } else if any_bad_angle(chain.segments, count) || !is_limit(chain.max_turn) {
        Some(ConfigError::BadAngle)
    } else if any_out_of_range(chain.segments, count) || !chain.head_segment().position.within(
        WORLD_MAX as int,
    ) || !chain.target.within(WORLD_MAX as int) || !(0 <= chain.speed <= u32::MAX) || !(0
        <= chain.stop_radius_sq <= u64::MAX) {
        Some(ConfigError::OutOfRange)
    } else if !ends_within(chain.segments, Some(chain.head), chain.segments.len()) {
        Some(ConfigError::Cycle)
    } else {
        None
    }
}

/// Nothing is wrong with a chain whose head looks where it is heading
/// exactly where the chain is well-formed.
pub proof fn lemma_config_error(chain: ChainModel)
    ensures
        chain.well_formed() ==> config_error(chain) is None,
        config_error(chain) is None && chain.head_segment().facing == chain.direction
            ==> chain.well_formed(),
{
}

/// Whether the links lead from the slot `head_id` to an end without coming
/// back.
fn links_end(nodes: &Vec<Option<ChainNode>>, head_id: usize) -> (b: bool)
    ensures
        b == ends_within(slots_view(nodes@), Some(head_id), nodes.len() as nat),
{
    let ghost segments = slots_view(nodes@);
    let count = nodes.len();
    let mut next = Some(head_id);
    let mut fuel: usize = count;
    loop
        invariant
            count == nodes.len(),
            segments == slots_view(nodes@),
            fuel <= count,
            ends_within(segments, Some(head_id), count as nat) == ends_within(
                segments,
                next,
                fuel as nat,
            ),
        decreases fuel,
    {
        let slot = match next {
            Some(id) => if id < count {
                nodes[id]
            } else {
                None
            },
            None => None,
        };
        match slot {
            None => {
                return true;
            },
            Some(node) => {
                if fuel == 0 {
                    return false;
                }
                next = node.next;
                fuel = fuel - 1;
            },
        }
    }
}

impl Chain {
    /// Makes a chain of the segments in `nodes`, with the segment in the
    /// slot `head_id` as its head.
    ///
    /// The head is made to look where `head.direction` points. A link may
    /// name a slot that is empty or does not exist: the chain is broken
    /// there. Anything else that is wrong is refused.
    pub fn new(nodes: Vec<Option<ChainNode>>, head_id: usize, head: ChainHead, settings: Settings) -> (r:
        Result<Chain, ConfigError>)
        ensures
            ({
                let model = assembled(
                    slots_view(nodes@),
                    head_id,
                    head.target@,
                    head.direction@,
                    settings.speed as int,
                    settings.max_turn@,
                    settings.stop_radius_sq as int,
                );
                match r {
                    Ok(chain) => config_error(model) is None && chain@ == model && chain.wf(),
                    Err(e) => config_error(model) == Some(e),
                }
            }),
    {
        let mut nodes = nodes;
        let ghost given = slots_view(nodes@);
        let ghost model = assembled(
            given,
            head_id,
            head.target@,
            head.direction@,
            settings.speed as int,
            settings.max_turn@,
            settings.stop_radius_sq as int,
        );
        let count = nodes.len();
        if count > SEGMENTS_MAX {
            return Err(ConfigError::TooManySegments);
        }
        if head_id >= count {
            return Err(ConfigError::NoHead);
        }
        let head_node = match nodes[head_id] {
            Some(node) => node,
            None => {
                return Err(ConfigError::NoHead);
            },
        };
        nodes.set(head_id, Some(ChainNode { facing: head.direction, ..head_node }));
        let mut zero = false;
        let mut angle = !settings.max_turn.is_limit();
        let mut range = !head_node.position.is_within(WORLD_MAX) || !head.target.is_within(
            WORLD_MAX,
        );
        let mut i: usize = 0;
        while i < count
            invariant
                i <= count,
                count == nodes.len(),
                model.segments == slots_view(nodes@),
                model.segments.len() == count,
                zero == any_bad_distance(model.segments, i as int),
                angle == (any_bad_angle(model.segments, i as int) || !is_limit(model.max_turn)),
                range == (any_out_of_range(model.segments, i as int)
                    || !model.head_segment().position.within(WORLD_MAX as int)
                    || !model.target.within(WORLD_MAX as int)),
            decreases count - i,
        {
            match nodes[i] {
                None => {},
                Some(node) => {
                    assert(model.segments[i as int] == Some(node@));
                    if node.distance == 0 {
                        zero = true;
                    }
                    if !node.angle_threshold.is_limit() {
                        angle = true;
                    }
                    if !node.position.is_within(POSITION_MAX) || !node.facing.is_within(SPAN_MAX) {
                        range = true;
                    }
                },
            }
            i = i + 1;
        }
        if zero {
            return Err(ConfigError::ZeroDistance);
        }
        if angle {
            return Err(ConfigError::BadAngle);
        }
        if range {
            return Err(ConfigError::OutOfRange);
        }
        if !links_end(&nodes, head_id) {
            return Err(ConfigError::Cycle);
        }
        let chain = Chain { nodes, head_id, head, settings };
        proof {
            lemma_config_error(model);
        }
        Ok(chain)
    }

    /// One tick: the head steers for `target`, and the segments follow.
    ///
    /// Nothing moves where there is no target, where the target is no
    /// farther from the head than the stopping radius, or where `dt_micros`
    /// is not positive. Otherwise the head moves as [`steer`] says, with
    /// the direction from the segment behind it to itself as the hint, and
    /// the other segments follow as in [`move_chain`]. The result says
    /// which of these happened.
    pub fn propagate(&mut self, target: Option<Vector>, dt_micros: i64) -> (tick: Tick)
        requires
            old(self).wf(),
            target matches Some(t) ==> t@.within(WORLD_MAX as int),
        ensures
            final(self).wf(),
            final(self)@ == propagated(
                old(self)@,
                match target {
                    Some(t) => Some(t@),
                    None => None,
                },
                dt_micros as int,
            ),
            tick == tick_of(
                old(self)@,
                match target {
                    Some(t) => Some(t@),
                    None => None,
                },
                dt_micros as int,
            ),
    {
        let t = match target {
            Some(t) => t,
            None => {
                return Tick::NoTarget;
            },
        };
        let head_id = self.head_id;
        let head_node = match self.nodes[head_id] {
            Some(node) => node,
            None => {
                return Tick::AtRest;
            },
        };
        let ghost before = self@;
        let hint = match self.node_behind(head_node) {
            Some(behind) => Some(head_node.position.minus(&behind.position)),
            None => None,
        };
        match steer(head_node.position, t, hint, &self.settings, dt_micros) {
            None => Tick::AtRest,
            Some(moved) => {
                self.head = ChainHead { target: t, direction: moved.1 };
                self.nodes.set(
                    head_id,
                    Some(ChainNode { position: moved.0, facing: moved.1, ..head_node }),
                );
                proof {
                    let turned = with_head_at(before, t@, moved.0@, moved.1@);
                    assert(self@.segments =~= turned.segments);
                    lemma_path_of_same_links(
                        turned.segments,
                        before.segments,
                        Some(head_id),
                        before.segments.len(),
                    );
                    lemma_end_of_same_links(
                        turned.segments,
                        before.segments,
                        Some(head_id),
                        before.segments.len(),
                    );
                }
                Tick::Moved(move_chain(self))
            },
        }
    }

    /// The segment behind `node`, where there is one.
    fn node_behind(&self, node: ChainNode) -> (behind: Option<ChainNode>)
        ensures
            slot_view(behind) == live(self@.segments, node.next),
    {
        match node.next {
            Some(id) => self.node(id),
            None => None,
        }
    }

    /// The slots of the segments from the head to the tail, or to the first
    /// broken link.
    pub fn order(&self) -> (ids: Vec<usize>)
        requires
            self.wf(),
        ensures
            ids@ == self@.order(),
    {
        let ghost segments = self@.segments;
        let count = self.nodes.len();
        let mut ids: Vec<usize> = Vec::new();
        let mut next = Some(self.head_id);
        let mut fuel: usize = count;
        let mut done = false;
        while !done
            invariant
                count == self.nodes.len(),
                segments == slots_view(self.nodes@),
                fuel <= count,
                ends_within(segments, next, fuel as nat),
                ids@ + path(segments, next, fuel as nat) == path(
                    segments,
                    Some(self.head_id),
                    count as nat,
                ),
                done ==> live(segments, next) is None,
            decreases 2 * fuel + (if done { 0int } else { 1int }),
        {
            let slot = match next {
                Some(id) => if id < count {
                    self.nodes[id]
                } else {
                    None
                },
                None => None,
            };
            match slot {
                None => {
                    done = true;
                },
                Some(node) => {
                    ids.push(next.unwrap());
                    next = node.next;
                    fuel = fuel - 1;
                },
            }
        }
        ids
    }

    /// The number of slots.
    pub fn len(&self) -> (n: usize)
        ensures
            n == self@.segments.len(),
    {
        self.nodes.len()
    }

    /// The slot of the head.
    pub fn head_id(&self) -> (id: usize)
        ensures
            id == self@.head,
    {
        self.head_id
    }

    /// The target and the heading of the head.
    pub fn head(&self) -> (head: ChainHead)
        ensures
            head.target@ == self@.target,
            head.direction@ == self@.direction,
    {
        self.head
    }

    /// How the head moves.
    pub fn settings(&self) -> (settings: Settings)
        ensures
            settings.speed == self@.speed,
            settings.max_turn@ == self@.max_turn,
            settings.stop_radius_sq == self@.stop_radius_sq,
    {
        self.settings
    }

    /// The segment in the slot `id`; `None` where the slot is empty or does
    /// not exist.
    pub fn node(&self, id: usize) -> (node: Option<ChainNode>)
        ensures
            slot_view(node) == live(self@.segments, Some(id)),
    {
        if id < self.nodes.len() {
            self.nodes[id]
        } else {
            None
        }
    }
}

/// The slots of a chain of `length` segments that hangs straight down from
/// its head at `head_position`, each segment `spacing` below the one before
/// it. The tail is in the first slot and the head in the last, and every
/// segment names the slot before its own.
pub open spec fn straight_segments(
    length: nat,
    spacing: int,
    limit: Vec2,
    head_position: Vec2,
) -> Seq<Option<Segment>> {
    Seq::new(
        length,
        |j: int|
            Some(
                Segment {
                    next: if j == 0 {
                        None
                    } else {
                        Some((j - 1) as usize)
                    },
                    distance: spacing,
                    limit,
                    position: Vec2 {
                        x: head_position.x,
                        y: head_position.y - (length - 1 - j) * spacing,
                    },
                    facing: Vec2 { x: 0, y: HEADING_LENGTH as int },
                },
            ),
    )
}

/// The chain that [`spawn_snake`] makes: it hangs straight down from its
/// head, which heads up, for the point one link above it or, where that is
/// out of the world, the nearest in it.
pub open spec fn spawned(
    length: nat,
    spacing: int,
    limit: Vec2,
    head_position: Vec2,
    speed: int,
    max_turn: Vec2,
    stop_radius_sq: int,
) -> ChainModel {
    ChainModel {
        segments: straight_segments(length, spacing, limit, head_position),
        head: (length - 1) as usize,
        target: brought_into_world(Vec2 { x: head_position.x, y: head_position.y + spacing }),
        direction: Vec2 { x: 0, y: HEADING_LENGTH as int },
        speed,
        max_turn,
        stop_radius_sq,
    }
}

/// Why [`spawn_snake`] makes no chain, if it makes none; of several reasons
/// the first in the order of [`ConfigError`].
pub open spec fn spawn_error(
    length: nat,
    spacing: int,
    limit: Vec2,
    head_position: Vec2,
    max_turn: Vec2,
) -> Option<ConfigError> {
    if length > SEGMENTS_MAX {
        Some(ConfigError::TooManySegments)
    } else if length == 0 {
        Some(ConfigError::NoHead)
    } else if spacing == 0 {
        Some(ConfigError::ZeroDistance)
    } else if !is_limit(limit) || !is_limit(max_turn) {
        Some(ConfigError::BadAngle)
    } else if !head_position.within(WORLD_MAX as int) {
        Some(ConfigError::OutOfRange)
    } else {
        None
    }
}

/// In the slots of a straight chain, the links lead from every slot to the
/// first, where they end.
proof fn lemma_straight_links_end(segments: Seq<Option<Segment>>, j: int)
    requires
        0 <= j < segments.len(),
        forall|i: int|
            0 <= i < segments.len() ==> (#[trigger] segments[i]) is Some && segments[i].unwrap().next
                == (if i == 0 {
                None
            } else {
                Some((i - 1) as usize)
            }),
        segments.len() <= SEGMENTS_MAX,
    ensures
        ends_within(segments, Some(j as usize), (j + 1) as nat),
    decreases j,
{
    let segment = segments[j].unwrap();
    if j > 0 {
        lemma_straight_links_end(segments, j - 1);
    } else {
        assert(ends_within(segments, segment.next, 0));
    }
}

/// Makes a chain of `length` segments that hangs straight down from its
/// head at `head_position`, each segment `spacing` below the one before it
/// and with `angle_threshold` as the limit of its joint. The head heads up.
pub fn spawn_snake(
    length: usize,
    spacing: u32,
    angle_threshold: Angle,
    head_position: Vector,
    settings: Settings,
) -> (r: Result<Chain, ConfigError>)
    ensures
        match r {
            Ok(chain) => {
                &&& spawn_error(
                    length as nat,
                    spacing as int,
                    angle_threshold@,
                    head_position@,
                    settings.max_turn@,
                ) is None
                &&& chain.wf()
                &&& chain@ == spawned(
                    length as nat,
                    spacing as int,
                    angle_threshold@,
                    head_position@,
                    settings.speed as int,
                    settings.max_turn@,
                    settings.stop_radius_sq as int,
                )
            },
            Err(e) => spawn_error(
                length as nat,
                spacing as int,
                angle_threshold@,
                head_position@,
                settings.max_turn@,
            ) == Some(e),
        },
{
    if length > SEGMENTS_MAX {
        return Err(ConfigError::TooManySegments);
    }
    if length == 0 {
        return Err(ConfigError::NoHead);
    }
    if spacing == 0 {
        return Err(ConfigError::ZeroDistance);
    }
    if !angle_threshold.is_limit() || !settings.max_turn.is_limit() {
        return Err(ConfigError::BadAngle);
    }
    if !head_position.is_within(WORLD_MAX) {
        return Err(ConfigError::OutOfRange);
    }
    let ghost segments = straight_segments(
        length as nat,
        spacing as int,
        angle_threshold@,
        head_position@,
    );
    let up = Vector { x: 0, y: HEADING_LENGTH as i64 };
    let mut nodes: Vec<Option<ChainNode>> = Vec::new();
    let mut j: usize = 0;
    while j < length
        invariant
            j <= length <= SEGMENTS_MAX,
            0 < spacing,
            head_position@.within(WORLD_MAX as int),
            is_limit(angle_threshold@),
            up@ == (Vec2 { x: 0, y: HEADING_LENGTH as int }),
            segments == straight_segments(
                length as nat,
                spacing as int,
                angle_threshold@,
                head_position@,
            ),
            nodes.len() == j,
            forall|i: int| 0 <= i < j ==> slot_view(#[trigger] nodes[i]) == segments[i],
            forall|i: int|
                0 <= i < j ==> segment_ok((#[trigger] segments[i]).unwrap()),
        decreases length - j,
    {
        let below: i64 = (length - 1 - j) as i64;
        assert(0 <= below * spacing <= 0xfff * 0xffff_ffff) by (nonlinear_arith)
            requires
                0 <= below <= 0xfff,
                0 <= spacing <= 0xffff_ffff,
        ;
        let node = ChainNode {
            next: if j == 0 {
                None
            } else {
                Some(j - 1)
            },
            distance: spacing,
            angle_threshold,
            position: Vector { x: head_position.x, y: head_position.y - below * (spacing as i64) },
            facing: up,
        };
        nodes.push(Some(node));
        j = j + 1;
    }
    let target = into_world(
        Vector { x: head_position.x, y: head_position.y + spacing as i64 },
    );
    let chain = Chain {
        nodes,
        head_id: length - 1,
        head: ChainHead { target, direction: up },
        settings,
    };
    proof {
        assert(chain@.segments =~= segments);
        lemma_straight_links_end(segments, length - 1);
        assert((length - 1 - (length - 1)) * spacing == 0) by (nonlinear_arith);
    }
    Ok(chain)
}

} // verus!
