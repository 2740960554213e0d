use vstd::prelude::*;

pub mod arena;
pub mod day;
pub mod engine;
pub mod linked_vector;
pub mod matrix;
pub mod moves;
pub mod order_day_flags;
pub mod order_location;
pub mod resource;
pub mod route;
pub mod solution;
pub mod week;
pub mod rng;

verus! {

/// Time is measured in centiseconds.
pub type Time = i64;

/// 60 * 100 centiseconds.
pub const MINUTE: Time = 6000;

/// 30 * 60 * 100 centiseconds.
pub const HALF_HOUR: Time = 180000;

/// 12 * 60 * 60 * 100 centiseconds.
pub const FULL_DAY: Time = 4320000;

} // verus!
