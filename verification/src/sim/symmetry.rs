//! Why a mesh or an orientation table cannot carry forced results.

use vstd::prelude::*;
use vstd::string::StringExecFns;

verus! {

/// A mesh or orientation table cannot support arbitrary forced results.
#[derive(Clone, Copy, Debug, PartialEq, Eq, Structural)]
pub enum SymmetryError {
    MissingMetadata,
    InvalidMetadata,
    InvalidGeometry,
    AsymmetricGeometry,
}

impl SymmetryError {
    /// The sentence that describes this error.
    pub open spec fn message(self) -> &'static str {
        match self {
            SymmetryError::MissingMetadata => "dice face orientations are missing",
            SymmetryError::InvalidMetadata => "dice face orientations are incomplete or invalid",
            SymmetryError::InvalidGeometry => "dice mesh vertices are empty or invalid",
            SymmetryError::AsymmetricGeometry => "dice mesh does not support every face permutation by rotation",
        }
    }

    /// Describes the error in one sentence.
    pub fn to_string(&self) -> (text: String)
        ensures
            text@ == self.message()@,
    {
        match self {
            SymmetryError::MissingMetadata => String::from_str("dice face orientations are missing"),
            SymmetryError::InvalidMetadata => String::from_str("dice face orientations are incomplete or invalid"),
            SymmetryError::InvalidGeometry => String::from_str("dice mesh vertices are empty or invalid"),
            SymmetryError::AsymmetricGeometry => String::from_str(
                "dice mesh does not support every face permutation by rotation",
            ),
        }
    }
}

} // verus!
