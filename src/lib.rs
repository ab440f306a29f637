//! Constraint-propagation tile map generation: distributions over labels,
//! grid positions and adjacency, and the collapse engine that drives every
//! tile of a grid to a label.
use vstd::prelude::*;

pub mod position;
pub mod sampler;
pub mod adjacency;
pub mod directions;
pub mod types;
pub mod map2dnode;
pub mod map2d;
pub mod assigner;
pub mod bitpack;
pub mod visualizers;
pub mod ruleset;
pub mod mapgen_presets;

verus! {

} // verus!
