//! Headless dice math: parse, roll, apply modifiers, read totals.

pub mod kind;
pub mod laws;
pub mod letter_case;
pub mod options;
pub mod parser;
pub mod random;
pub mod roll;
pub mod round_trip;
pub mod text;

pub use kind::DieKind;
pub use options::{Modifier, Options, OptionsError, MAX_OPTION_ITERATIONS};
pub use parser::{ParseError, MAX_DICE_PER_TERM};
pub use roll::{DiceRoll, DiceTerm, RollOutcome, RollOutcomeDisplay, RolledDie};
