//! Move synchronisation between two peers of a chess game: the wire codec,
//! the decisions of the receive loop and the move relay, and the shared board.

pub mod wire;
pub mod message;
pub mod board;
pub mod session;
