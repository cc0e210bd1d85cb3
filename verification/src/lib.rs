//! A chess engine: board facts, move ordering, search, evaluation, training
//! data and the text protocol that drives it.

pub mod bits;
pub mod chess;
pub mod rules;
pub mod attacks;
pub mod evaluate;
pub mod history;
pub mod moves;
pub mod transposition;
pub mod zobrist;
pub mod totals;
pub mod nnue;
pub mod symmetry;
pub mod progress;
pub mod picker;
pub mod limits;
pub mod model;
pub mod engine;
pub mod search;
pub mod learning;
pub mod minimax;
pub mod deepening;
pub mod text;
pub mod uci;
pub mod coordinator;
pub mod probe;
pub mod rng;
pub mod options;
pub mod selfplay;
pub mod bulk;
pub mod game;
pub mod genfens;
pub mod laws;
