//! Tree search: the transposition table, position evaluation and negamax.
pub mod transposition_table;
pub mod eval;
pub mod negmax;
