//! A solver for the sliding-tile puzzle on an `n` by `n` grid.
pub mod board;
pub mod decode;
pub mod heuristic;
pub mod laws;
pub mod model;
pub mod solver;
pub mod states;
pub mod text;
pub mod tile;
