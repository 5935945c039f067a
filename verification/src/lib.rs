//! A chain of rigid segments on an integer grid whose head chases a target
//! and whose other segments follow, each at a fixed distance from the one
//! before it and with a bounded bend at every joint.
//!
//! All quantities are integers. A position is a point of the grid, a length
//! is a number of grid steps, time is counted in microseconds, and an angle
//! is held as the direction of an integer vector, so that every comparison of
//! angles is exact. How fine the grid is, is for the caller to say: nothing
//! here depends on what a grid step stands for, and a link may be up to
//! `u32::MAX` grid steps long. With twenty thousand grid steps to the unit,
//! two grid steps are a ten-thousandth of a unit.
//!
//! Three things round, each towards zero. Where a vector is brought to a
//! length, and where a vector is turned by an angle, a coordinate is divided
//! by a square root ([`ratio`]): the laws bound the error by two grid steps
//! along the vector and one across. And the step of a head is its speed
//! times the time, in whole grid steps ([`steering::step_length`]).
//!
//! The modules, from the bottom up:
//! - [`root`]: integer square roots;
//! - [`ratio`]: division by a square root, and how exact it is;
//! - [`vector`]: vectors and points;
//! - [`normalize`]: bringing a vector to a length;
//! - [`angle`]: angles, rotation, and the comparison of a turn with a limit;
//! - [`joint`]: where one segment goes when the one before it has moved;
//! - [`steering`]: where the head goes;
//! - [`links`]: the order of the segments of a chain;
//! - [`chain`]: the chain, the pass that makes the segments follow the head,
//!   and the tick that moves the head first;
//! - [`laws`]: what holds of every chain after a pass and after a tick;
//! - [`steady`]: the steady state of a chain that is pulled along its line;
//! - [`camera`]: the step of a camera that four keys move.
//!
//! Machine integers set the bounds. A head stays in the world, the square
//! of the points with coordinates of at most [`steering::WORLD_MAX`]; a chain
//! has at most [`chain::SEGMENTS_MAX`] slots; a link is at most `u32::MAX`
//! long, and so is the step of a head in one tick. With these the segments
//! stay within [`joint::POSITION_MAX`], and no computation overflows.

pub mod angle;
pub mod camera;
pub mod chain;
pub mod joint;
pub mod laws;
pub mod links;
pub mod normalize;
pub mod ratio;
pub mod root;
pub mod steady;
pub mod steering;
pub mod vector;

pub use angle::{angle_between, rotate, turn_and_stretch, Angle};
pub use camera::move_camera;
pub use chain::{move_chain, spawn_snake, Chain, ChainHead, ChainNode, ConfigError, Tick};
pub use links::ChainEnd;
pub use joint::{clamp_angle, clamp_direction, constrain_distance, follow};
pub use normalize::normalize_or_zero;
pub use root::isqrt;
pub use steering::{into_world, steer, step_length_of, Settings};
pub use vector::{Vec2, Vector};
