//! Rules engine of a falling-block puzzle on an 8x32 field: piece shapes,
//! rotation, ping-pong drift, gravity, collisions, line clears and scoring.

pub mod game;
pub mod grid;
pub mod piece;

pub use game::{MoveDirection, Tetris, drift_step};
pub use grid::Grid;
pub use piece::Block;
