//! What the physics simulation shares with the rest of the library: the
//! physical dice limit and the ways a throw or a mesh can fail.

pub mod config;
pub mod precompute;
pub mod symmetry;

pub use config::MAX_DICE_PER_ROLL;
pub use precompute::SimulationError;
pub use symmetry::SymmetryError;
