//! Core of a neural-network-guided chess engine: deterministic position and
//! move encoding for a policy/value network, a Monte Carlo tree search over
//! fixed-point statistics, and the search driver's decision logic.
//!
//! Value-like quantities (priors, backed-up values, virtual losses) are kept
//! in thousandths (milli-units), so that every tree operation is exact
//! integer arithmetic with proved bounds.

pub mod moves;
pub mod encoding;
pub mod mcts;
pub mod game;
pub mod search;
