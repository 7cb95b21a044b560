//! The vocabulary shared by the hall, the rooms and the sessions: the
//! commands they take and the events they hand back for delivery.
use vstd::prelude::*;

use crate::board::{Chessman, Error};

verus! {

/// What a player is told. Every command resolves to events of this kind,
/// each addressed to one player.
#[derive(Debug, PartialEq, Eq)]
pub enum Event {
    /// The player is queued and waits for an opponent.
    Waiting,
    /// The player asked for a match while already queued.
    AlreadyQueued,
    /// The player asked for a match while seated in a room.
    AlreadyPlaying,
    /// The player's queued request was withdrawn.
    Canceled,
    /// A room was formed; the opponent's name is given.
    MatchFound(String),
    /// Both seats are ready and play begins.
    MatchStarted,
    /// The player is ready; the opponent is not yet.
    NotReady,
    /// The board refused the player's placement.
    MoveRejected(Error),
    /// A placement was accepted: colour, x, y.
    MoveAccepted(Chessman, usize, usize),
    /// The match was won by the given colour.
    GameWon(Chessman),
    /// The opponent left a running match: the player wins by forfeit.
    OpponentLeftForfeit,
    /// A chat line.
    Chat(String),
    /// The room does not take this command in its present state.
    RoomNotInProgress,
    /// The player holds no seat in the room.
    NotASeatOccupant,
    /// The player is not connected.
    UnknownPlayer,
}

/// An event addressed to one player.
pub type Notice = (usize, Event);

/// A command for a room, from the player whose id it carries.
#[derive(Clone, Copy, Debug)]
pub enum GomokuMsg {
    Ready(usize),
    Put(usize, usize, usize),
    Quit(usize),
}

/// A chat line from a named player.
#[derive(Debug)]
pub struct ChatMsg {
    pub content: String,
    pub name: String,
}

/// A command for the hall.
#[derive(Debug)]
pub enum HallMsg {
    StartGomoku(usize),
    CancelGomoku(usize),
    Chat(ChatMsg),
}

} // verus!
