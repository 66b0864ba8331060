//! Othello (Reversi) on an 8x8 board: the capture rule, placement with flips,
//! move generation, scoring, and a fixed-depth search that picks a move.

pub mod pattern;
pub mod line;
pub mod board;
pub mod game;
pub mod laws;
pub mod search;
pub mod display;

pub use board::Osero;
pub use pattern::Pattern;
