//! A search engine for the 4x4x4 gravity-stacked four-in-a-row game (qubic).
//!
//! Two players drop pieces into one of 16 vertical columns of a 4x4x4 cube;
//! a column fills bottom-up, and a player wins by occupying all four cells of
//! any of the 76 winning lines. The crate provides the position
//! representation, its static evaluator, and a depth-limited negamax search
//! with alpha-beta pruning and move ordering, each with a verified contract.

pub mod evaluation;
pub mod position;
