//! Hobogo: a territorial influence game on a square grid, with a Monte Carlo
//! tree search engine to pick strong moves.
//!
//! The `hobogo` module holds the board, the influence classifier, the
//! volatility analyzer and the scoring queries; the `mcts` module holds the
//! turn engine and the search; the `rng` module wraps the pseudorandom source
//! that every randomized operation takes explicitly.

pub mod hobogo;
pub mod mcts;
pub mod rng;
