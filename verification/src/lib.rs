//! A solver for the sliding-tile puzzle on an n by n grid.
//!
//! The library models a board as the row-major sequence of its cells, builds the
//! spiral-shaped goal, scores states with several estimators and runs a best-first
//! search over the graph of blank slides.  Every function carries a contract that
//! Verus proves.
//!
//! Beside the functions stand the facts on which their contracts rest: the goal
//! holds every tile once (`spiral`); a board can be brought into the goal exactly
//! when it passes the parity test (`parity`, `solving`); every estimate changes by
//! one at most with a move and so never exceeds the moves that are left
//! (`conflicts`, `estimates`); the search succeeds exactly on the boards that pass
//! the test (`search`) and, ranked by cost plus an estimate, finds a shortest chain
//! of moves (`optimal`).

pub mod board;
pub mod conflicts;
pub mod error;
pub mod estimates;
pub mod generator;
pub mod graph;
pub mod heuristic;
pub mod moves;
pub mod node;
pub mod optimal;
pub mod options;
pub mod parity;
pub mod parser;
pub mod path;
pub mod puzzle;
pub mod random;
pub mod render;
pub mod search;
pub mod shuffle;
pub mod snake;
pub mod solving;
pub mod solvable;
pub mod spiral;
pub mod text;
