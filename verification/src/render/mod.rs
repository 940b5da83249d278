//! What playback checks and computes before it throws: whether an expression
//! fits the physical dice, whether a forced outcome fits its expression,
//! which physical faces must land for an outcome, and which roll id and
//! arena a submission takes.

pub mod cache;
pub mod cached_roll;
pub mod diceset;
pub mod laws;
pub mod roller;
pub mod schedule;

pub use cache::{physical_dice, queue_composition, PRECOMPUTE_QUEUE_DEPTH};
pub use cached_roll::{base_composition, validate_outcome, validate_roll, OutcomeError, RollFailure};
pub use diceset::custom_asset_path;
pub use roller::{single_default_arena, NextRollId, NoDefaultArena, RollError};
