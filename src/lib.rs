//! A maze-exploring agent: grid bookkeeping, a depth-first search over a
//! progressively revealed maze, and a flood-fill that detects dead pockets.

pub mod geometry;
pub mod grid;
pub mod frontier;
pub mod predictor;
pub mod priority;
pub mod proto;
pub mod agent;
