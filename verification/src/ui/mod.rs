//! Reading settled dice: the binary gltf container that carries the face
//! table, and the face labels a settled die or percentile pair shows.

pub mod orientations;
pub mod resolve;
