//! Rules engine for the board game Quarto: the sixteen-piece attribute
//! model, the canonical text encoding of a board, the pick-then-place
//! turn protocol, and the win checker over the ten lines of the board.

pub mod board;
pub mod game;
pub mod piece;
pub mod win;
