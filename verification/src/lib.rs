//! A Monte Carlo Tree Search engine over a pluggable state model.
//!
//! The search tree is an arena of nodes addressed by integer indices;
//! parent and child links are indices into the arena, which rules out
//! reference cycles and makes upward and downward traversal provable.

pub mod engine;
pub mod model;
pub mod nim;
pub mod score;
pub mod tree;
