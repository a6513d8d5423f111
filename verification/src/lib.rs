//! A verified rules engine for the classic 8x8 disc-flipping board game,
//! together with a heuristic, depth-bounded negamax move chooser and a
//! small arithmetic-expression parser.

pub mod piece;
pub mod tile_pos;
pub mod grid;
pub mod moves;
pub mod reversi;
pub mod ai;
pub mod expr;
pub mod token;
pub mod parser;
pub mod prompt;
