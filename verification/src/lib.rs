//! A verified solver for the water-sort puzzle: a fixed set of bottles, each
//! a stack of colored units, is rearranged by pours until every bottle holds
//! a single color. The solver runs a fallback chain of search strategies
//! (greedy pre-optimization, iterative-deepening A*, bounded best-first
//! breadth search, beam search) and memoizes solved boards in a cache.
//!
//! Every movement sequence the solver returns is proved legal and proved to
//! leave the board solved when replayed from the initial board.

#![verifier::loop_isolation(false)]

pub mod arena;
pub mod board;
pub mod errors;
pub mod heuristic;
pub mod laws;
pub mod model;
pub mod moves;
pub mod search;
pub mod solver;

pub use board::Board;
pub use errors::SolveError;
pub use model::Movement;
pub use model::MAX_LEVELS;
pub use model::MAX_N_OF_BOTTLES;
pub use solver::Solver;
