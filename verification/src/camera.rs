//! Moving the camera with four keys.

use vstd::prelude::*;
use crate::normalize::{normalize_or_zero, normalized};
use crate::steering::{step_length, step_length_of};
use crate::vector::{Vec2, Vector};

verus! {

/// What one key adds to a coordinate of the direction: one step where the
/// key of the positive side is down, one back where that of the negative
/// side is.
pub open spec fn key_axis(positive: bool, negative: bool) -> int {
    (if positive { 1int } else { 0int }) - (if negative { 1int } else { 0int })
}

/// The direction that the four keys ask for. Keys of opposite sides cancel.
pub open spec fn key_direction(up: bool, down: bool, left: bool, right: bool) -> Vec2 {
    Vec2 { x: key_axis(right, left), y: key_axis(up, down) }
}

/// How far, and which way, the camera goes in `dt_micros` microseconds at
/// `speed` grid steps per second while the given keys are down: the step of
/// [`step_length`] in the direction of the keys, and nothing where no key
/// is down, where the keys cancel or where no time has passed.
pub fn move_camera(up: bool, down: bool, left: bool, right: bool, speed: u32, dt_micros: i64) -> (delta:
    Vector)
    ensures
        delta@ == normalized(
            key_direction(up, down, left, right),
            step_length(speed as int, dt_micros as int),
        ),
{
    let mut direction = Vector::zero();
    if up {
        direction.y = direction.y + 1;
    }
    if down {
        direction.y = direction.y - 1;
    }
    if left {
        direction.x = direction.x - 1;
    }
    if right {
        direction.x = direction.x + 1;
    }
    normalize_or_zero(direction, step_length_of(speed, dt_micros))
}

} // verus!
