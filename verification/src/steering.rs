//! Steering the head of a chain towards its target.

use vstd::prelude::*;
use crate::angle::{is_limit, Angle, SPAN_MAX};
use crate::joint::{clamp_direction, clamped_direction, lemma_joint_aim_zero};
use crate::normalize::{
    lemma_normalized_length, near_length, normalize_or_zero, normalized,
};
use crate::vector::{lemma_norm_sq_positive, lemma_product_bound, Vec2, Vector};

verus! {

/// The world is the square of the points whose coordinates are at most
/// `WORLD_MAX` in absolute value. A head does not leave it.
pub const WORLD_MAX: i64 = 0x100_0000_0000;

/// The length to which the heading of a head is brought.
pub const HEADING_LENGTH: u32 = 0x4000_0000;

/// The longest step that a head takes in one tick: a step is a length, and
/// a length is a `u32`. On a grid of twenty thousand steps to the unit that
/// is more than two hundred thousand units in one tick.
pub const STEP_MAX: u32 = 0xffff_ffff;

/// How a head moves.
#[derive(Clone, Copy, Debug, PartialEq, Eq)]
pub struct Settings {
    /// Grid steps per second.
    pub speed: u32,
    /// The largest turn, to either side, that the head makes in one tick
    /// away from the direction in which the segment behind it pushes.
    pub max_turn: Angle,
    /// The square of the distance from the target at which the head stops.
    pub stop_radius_sq: u64,
}

/// How far a head goes in `dt_micros` microseconds at `speed` grid steps per
/// second: the product, rounded down, and at most `STEP_MAX`. No time, or
/// less, is no way.
pub open spec fn step_length(speed: int, dt_micros: int) -> int {
    if dt_micros <= 0 {
        0
    } else if (speed * dt_micros) / 1_000_000 > STEP_MAX as int {
        STEP_MAX as int
    } else {
        (speed * dt_micros) / 1_000_000
    }
}

/// One coordinate, brought into the world.
pub open spec fn coordinate_into_world(c: int) -> int {
    if c > WORLD_MAX as int {
        WORLD_MAX as int
    } else if c < -(WORLD_MAX as int) {
        -(WORLD_MAX as int)
    } else {
        c
    }
}

/// The point of the world nearest to `p`.
pub open spec fn brought_into_world(p: Vec2) -> Vec2 {
    Vec2 { x: coordinate_into_world(p.x), y: coordinate_into_world(p.y) }
}

/// The direction in which a head moves: towards the target, along `raw`,
/// unless that turns away from `hint` by more than `max_turn`; in that case
/// `hint` turned by `max_turn` towards the target. Without a hint, or with
/// one that is zero, it is `raw`.
pub open spec fn steered_direction(raw: Vec2, hint: Option<Vec2>, max_turn: Vec2) -> Vec2 {
    match hint {
        Some(h) => match clamped_direction(raw, h, max_turn) {
            Some(w) => w,
            None => raw,
        },
        None => raw,
    }
}

/// The head is to stay where it is: it has reached its target, or no time
/// has passed.
pub open spec fn at_rest(position: Vec2, target: Vec2, stop_radius_sq: int, dt_micros: int) -> bool {
    target.minus(position).norm_sq() <= stop_radius_sq || dt_micros <= 0
}

/// The position and the heading of a head after one tick; `None` where it
/// is to stay where it is.
pub open spec fn steered(
    position: Vec2,
    target: Vec2,
    hint: Option<Vec2>,
    speed: int,
    max_turn: Vec2,
    stop_radius_sq: int,
    dt_micros: int,
) -> Option<(Vec2, Vec2)> {
    if at_rest(position, target, stop_radius_sq, dt_micros) {
        None
    } else {
        let aim = steered_direction(target.minus(position), hint, max_turn);
        Some(
            (
                brought_into_world(
                    position.plus(normalized(aim, step_length(speed, dt_micros))),
                ),
                normalized(aim, HEADING_LENGTH as int),
            ),
        )
    }
}

/// How far a head goes in `dt_micros` microseconds at `speed` grid steps per
/// second.
pub fn step_length_of(speed: u32, dt_micros: i64) -> (step: u32)
    ensures
        step == step_length(speed as int, dt_micros as int),
{
    if dt_micros <= 0 {
        return 0;
    }
    proof {
        lemma_product_bound(
            speed as int,
            dt_micros as int,
            0xffff_ffff,
            0x7fff_ffff_ffff_ffff,
        );
        assert(speed * dt_micros >= 0) by (nonlinear_arith)
            requires
                speed >= 0,
                dt_micros > 0,
        ;
    }
    let way: u128 = (speed as u128) * (dt_micros as u128) / 1_000_000;
    if way > STEP_MAX as u128 {
        STEP_MAX
    } else {
        way as u32
    }
}

/// The point of the world nearest to `p`.
pub fn into_world(p: Vector) -> (r: Vector)
    ensures
        r@ == brought_into_world(p@),
        r@.within(WORLD_MAX as int),
{
    let x: i64 = if p.x > WORLD_MAX {
        WORLD_MAX
    } else if p.x < -WORLD_MAX {
        -WORLD_MAX
    } else {
        p.x
    };
    let y: i64 = if p.y > WORLD_MAX {
        WORLD_MAX
    } else if p.y < -WORLD_MAX {
        -WORLD_MAX
    } else {
        p.y
    };
    Vector { x, y }
}

/// Steers a head at `position` towards `target`.
///
/// The head stays where it is, and the result is `None`, where the target
/// is no farther away than the stopping radius or where `dt_micros` is not
/// positive. Otherwise it heads for the target, but turns away from `hint`,
/// the direction in which the segment behind it pushes, by no more than
/// `settings.max_turn`; it goes [`step_length`] far in that direction, and
/// not out of the world. The result is its new position and its heading,
/// the latter `HEADING_LENGTH` long.
pub fn steer(
    position: Vector,
    target: Vector,
    hint: Option<Vector>,
    settings: &Settings,
    dt_micros: i64,
) -> (r: Option<(Vector, Vector)>)
    requires
        position@.within(WORLD_MAX as int),
        target@.within(WORLD_MAX as int),
        hint matches Some(h) ==> h@.within(SPAN_MAX as int),
        is_limit(settings.max_turn@),
    ensures
        match r {
            Some(moved) => Some((moved.0@, moved.1@)),
            None => None,
        } == steered(
            position@,
            target@,
            match hint {
                Some(h) => Some(h@),
                None => None,
            },
            settings.speed as int,
            settings.max_turn@,
            settings.stop_radius_sq as int,
            dt_micros as int,
        ),
        r matches Some(moved) ==> moved.0@.within(WORLD_MAX as int) && moved.1@.within(
            HEADING_LENGTH as int,
        ),
{
    let raw = target.minus(&position);
    if raw.norm_sq() <= settings.stop_radius_sq as u128 || dt_micros <= 0 {
        return None;
    }
    let aim = match hint {
        Some(h) => match clamp_direction(raw, h, settings.max_turn) {
            Some(w) => w,
            None => raw,
        },
        None => raw,
    };
    let way = normalize_or_zero(aim, step_length_of(settings.speed, dt_micros));
    let heading = normalize_or_zero(aim, HEADING_LENGTH);
    Some((into_world(position.plus(&way)), heading))
}

/// A head that moves has a heading: it is `HEADING_LENGTH` long within two
/// grid steps, so it is not zero.
pub proof fn lemma_steered_heading(
    position: Vec2,
    target: Vec2,
    hint: Option<Vec2>,
    speed: int,
    max_turn: Vec2,
    stop_radius_sq: int,
    dt_micros: int,
)
    requires
        is_limit(max_turn),
        stop_radius_sq >= 0,
    ensures
        steered(position, target, hint, speed, max_turn, stop_radius_sq, dt_micros) matches Some(
            moved,
        ) ==> near_length(moved.1, HEADING_LENGTH as int) && !moved.1.is_zero(),
{
    if !at_rest(position, target, stop_radius_sq, dt_micros) {
        let raw = target.minus(position);
        lemma_norm_sq_positive(raw);
        let aim = steered_direction(raw, hint, max_turn);
        if let Some(h) = hint {
            // The cut-back direction is that of a joint at the origin whose
            // segment lies at `-raw`.
            let origin = Vec2::zero();
            let at = Vec2 { x: -raw.x, y: -raw.y };
            lemma_joint_aim_zero(at, max_turn, origin, h);
        }
        lemma_normalized_length(aim, HEADING_LENGTH as int);
        let heading = normalized(aim, HEADING_LENGTH as int);
        lemma_norm_sq_positive(heading);
    }
}

} // verus!
