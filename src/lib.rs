//! Optimal and bounded-suboptimal solving of the 3x3 sliding-tile puzzle.
pub mod board;
pub mod frontier;
pub mod heuristics;
pub mod search;
