//! Limits shared by simulation and presentation.

use vstd::prelude::*;

verus! {

/// Maximum physical dice per throw; percentile dice consume two bodies each.
pub const MAX_DICE_PER_ROLL: usize = 20;

} // verus!
