pub mod bits;
pub mod body;
pub mod error;
pub mod integrator;
pub mod octree;
pub mod simulation;
pub mod utils;
