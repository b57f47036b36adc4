//! A chess engine core: board representation, FEN parsing, move generation,
//! move application and tree search, with the rules of the game stated as
//! specifications and proved of the code.
pub mod bitboard;
pub mod board;
pub mod utils;
pub mod perft;
pub mod search;
pub mod uci;
