//! A solver for a fixed 6x6 edge-matching puzzle, in the style of
//! "wave function collapse": constraint propagation over per-cell domains
//! combined with backtracking search over piece placements.

pub mod catalog;
pub mod grid;
pub mod piece;
pub mod solver;
