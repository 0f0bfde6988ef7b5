//! Rules engine and adversarial search core for a two-player capture game on
//! a 5x5 grid: a bit-packed board representation, legal-move generation,
//! custodial capture, win detection, a static evaluator, and a negamax /
//! principal-variation search with a transposition table.

pub mod board;
pub mod search;
pub mod tmove;
