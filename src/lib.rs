//! An exact solver for four-in-a-row on a 7 by 6 grid: bitboard positions,
//! a lossy transposition table, negamax with alpha-beta pruning and a
//! null-window driver that narrows a score window down to the game value.

pub mod eval;
pub mod game;
pub mod transpositions;
