// Reversi: a bitboard position engine, a static evaluator, position-keyed tables,
// and alpha-beta, negamax and negascout searches with iterative deepening.
//
// `geometry` states the rules over sets of cells; `board` implements them on
// bitboards and proves them against it. `search` states the value of a position
// searched to a depth and proves the alpha-beta search against it.
pub mod bits;
pub mod board;
pub mod book;
pub mod client;
pub mod clock;
pub mod coord;
pub mod eval;
pub mod geometry;
pub mod patterns;
pub mod random;
pub mod search;
pub mod symmetry;
pub mod table;
