//! The decisions behind submitting a roll: which arena is the default one,
//! which roll id a submission takes, and why a submission is refused.

use vstd::prelude::*;
use vstd::string::StringExecFns;

use crate::dice::parser::ParseError;
use crate::dice::roll::{DiceRoll, RollOutcome};

use super::cached_roll::{spec_validate_outcome, validate_outcome, OutcomeError};

verus! {

/// Reasons a roll aimed at the default arena cannot find it.
#[derive(Debug, Clone, Copy, Eq, PartialEq, Structural)]
pub enum NoDefaultArena {
    /// Zero entities carry the default-arena marker.
    Missing,
    /// More than one entity carries the default-arena marker.
    Ambiguous,
}

/// Reasons parsing and submitting a roll can fail.
#[derive(Debug, Clone, PartialEq)]
pub enum RollError {
    /// The expression failed to parse.
    Parse(ParseError),
    /// No (or multiple) default arenas exist.
    Arena(NoDefaultArena),
    /// The supplied outcome is inconsistent with the expression.
    Outcome(OutcomeError),
}

impl RollError {
    /// The sentence that describes this error.
    pub open spec fn message(self) -> Seq<char> {
        match self {
            RollError::Outcome(err) => "invalid outcome: "@ + err.message()@,
            RollError::Parse(err) => "parse error: "@ + err.message(),
            RollError::Arena(NoDefaultArena::Missing) => "no DefaultArena in the world"@,
            RollError::Arena(NoDefaultArena::Ambiguous) => "multiple DefaultArenas in the world"@,
        }
    }

    /// Describes the error in one sentence.
    pub fn to_string(&self) -> (text: String)
        ensures
            text@ == self.message(),
    {
        match self {
            RollError::Outcome(err) => {
                let detail = err.to_string();
                let mut text = String::from_str("invalid outcome: ");
                text.append(detail.as_str());
                text
            },
            RollError::Parse(err) => {
                let detail = err.to_string();
                let mut text = String::from_str("parse error: ");
                text.append(detail.as_str());
                text
            },
            RollError::Arena(NoDefaultArena::Missing) => String::from_str("no DefaultArena in the world"),
            RollError::Arena(NoDefaultArena::Ambiguous) => String::from_str("multiple DefaultArenas in the world"),
        }
    }
}

impl From<ParseError> for RollError {
    fn from(err: ParseError) -> (error: Self) {
        RollError::Parse(err)
    }
}

impl vstd::std_specs::convert::FromSpecImpl<ParseError> for RollError {
    open spec fn obeys_from_spec() -> bool {
        true
    }

    open spec fn from_spec(err: ParseError) -> Self {
        RollError::Parse(err)
    }
}

impl From<NoDefaultArena> for RollError {
    fn from(err: NoDefaultArena) -> (error: Self) {
        RollError::Arena(err)
    }
}

impl vstd::std_specs::convert::FromSpecImpl<NoDefaultArena> for RollError {
    open spec fn obeys_from_spec() -> bool {
        true
    }

    open spec fn from_spec(err: NoDefaultArena) -> Self {
        RollError::Arena(err)
    }
}

impl From<OutcomeError> for RollError {
    fn from(err: OutcomeError) -> (error: Self) {
        RollError::Outcome(err)
    }
}

impl vstd::std_specs::convert::FromSpecImpl<OutcomeError> for RollError {
    open spec fn obeys_from_spec() -> bool {
        true
    }

    open spec fn from_spec(err: OutcomeError) -> Self {
        RollError::Outcome(err)
    }
}

/// The id after `value`, wrapping from `u64::MAX` to 0.
pub open spec fn next_id(value: u64) -> u64 {
    if value == u64::MAX {
        0
    } else {
        (value + 1) as u64
    }
}

/// Monotonic roll-id counter: each submitted roll takes the next id.
#[derive(Debug, Clone, Copy, PartialEq, Eq, Structural)]
pub struct NextRollId {
    pub value: u64,
}

impl Default for NextRollId {
    fn default() -> (ids: Self)
        ensures
            ids.value == 0,
    {
        NextRollId { value: 0 }
    }
}

impl NextRollId {
    /// Takes the next roll id: the counter advances by one, wrapping.
    pub fn take(&mut self) -> (id: u64)
        ensures
            final(self).value == next_id(old(self).value),
            id == final(self).value,
    {
        self.value = self.value.wrapping_add(1);
        self.value
    }

    /// Takes a roll id for an outcome supplied from outside, only when the
    /// outcome fits its expression; a rejected outcome takes no id.
    pub fn take_for_outcome(&mut self, roll: &DiceRoll, outcome: &RollOutcome) -> (id: Result<u64, OutcomeError>)
        ensures
            match spec_validate_outcome(
                roll.terms@,
                roll.adjustment,
                outcome.total,
                outcome.dice@,
                outcome.term_lengths@,
            ) {
                Err(e) => id == Err::<u64, OutcomeError>(e) && *final(self) == *old(self),
                Ok(_) => id == Ok::<u64, OutcomeError>(next_id(old(self).value)) && final(self).value == next_id(
                    old(self).value,
                ),
            },
    {
        if let Err(e) = validate_outcome(roll, outcome) {
            return Err(e);
        }
        Ok(self.take())
    }
}

/// The default arena among the arenas that carry the marker: the only one,
/// `Missing` when there is none, `Ambiguous` when there are several.
pub fn single_default_arena<T: Copy>(arenas: &[T]) -> (arena: Result<T, NoDefaultArena>)
    ensures
        arenas@.len() == 0 ==> arena == Err::<T, NoDefaultArena>(NoDefaultArena::Missing),
        arenas@.len() == 1 ==> arena == Ok::<T, NoDefaultArena>(arenas@[0]),
        arenas@.len() > 1 ==> arena == Err::<T, NoDefaultArena>(NoDefaultArena::Ambiguous),
{
    if arenas.len() == 0 {
        Err(NoDefaultArena::Missing)
    } else if arenas.len() > 1 {
        Err(NoDefaultArena::Ambiguous)
    } else {
        Ok(arenas[0])
    }
}

} // verus!
