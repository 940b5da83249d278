//! Why a throw could not be recorded.

use vstd::prelude::*;
use vstd::string::StringExecFns;

verus! {

/// A throw could not be simulated and recorded.
#[derive(Debug, Clone, Copy, PartialEq, Eq, Structural)]
pub enum SimulationError {
    InvalidInput,
    DidNotSettle,
}

impl SimulationError {
    /// The sentence that describes this error.
    pub open spec fn message(self) -> &'static str {
        match self {
            SimulationError::InvalidInput => "invalid dice simulation input",
            SimulationError::DidNotSettle => "dice did not settle inside the arena within the simulation budget",
        }
    }

    /// Describes the error in one sentence.
    pub fn to_string(&self) -> (text: String)
        ensures
            text@ == self.message()@,
    {
        match self {
            SimulationError::InvalidInput => String::from_str("invalid dice simulation input"),
            SimulationError::DidNotSettle => String::from_str(
                "dice did not settle inside the arena within the simulation budget",
            ),
        }
    }
}

} // verus!
