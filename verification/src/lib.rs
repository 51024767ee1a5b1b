//! An 8×8 checkers match: the rules of the game and a minimax search with
//! alpha-beta pruning that picks a move for one side.

pub mod apply;
pub mod board;
pub mod chains;
pub mod engine;
pub mod eval;
pub mod game;
pub mod laws;
pub mod moves;
pub mod rules;
pub mod search;

pub use game::{Checkers, CheckersError, Position};
pub use moves::{Direction, Move, MoveView, Step};
