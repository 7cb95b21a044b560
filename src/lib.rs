//! Gomoku: the rules engine, the per-match state machine and the matchmaking hall.
pub mod board;
pub mod hall;
pub mod msg;
pub mod room;

pub use board::{Board, Chessman, Error, Move, Result, LINE_COUNT};
pub use hall::Hall;
pub use msg::{ChatMsg, Event, GomokuMsg, HallMsg, Notice};
pub use room::{GomokuRoom, GomokuState};
