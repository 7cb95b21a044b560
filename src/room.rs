//! One match: a board, its history, two seats with their readiness, and the
//! life cycle of the match. Each command is one call; the events it yields
//! are handed back for delivery.
use vstd::prelude::*;

use crate::board::{
    alternating_distinct, all_accepted, empty_view, lemma_alternating_moves_accepted, replay, Board,
    BoardView, Chessman, Move,
};
use crate::msg::{Event, GomokuMsg, Notice};

verus! {

/// The life cycle of a room.
#[derive(PartialEq, Eq, Structural, Clone, Copy, Debug)]
pub enum GomokuState {
    Forming,
    AwaitingReady,
    InProgress,
    Finished(Chessman),
    Abandoned,
}

/// A match between two seats: the queued player who was waiting holds Black,
/// the player who matched them holds White.
pub struct GomokuRoom {
    board: Board,
    history: Vec<Move>,
    black: usize,
    white: usize,
    black_present: bool,
    white_present: bool,
    black_ready: bool,
    white_ready: bool,
    state: GomokuState,
}

/// The content of a room.
pub struct RoomView {
    pub board: BoardView,
    pub history: Seq<Move>,
    pub black: usize,
    pub white: usize,
    pub black_present: bool,
    pub white_present: bool,
    pub black_ready: bool,
    pub white_ready: bool,
    pub state: GomokuState,
}

pub open spec fn opposite(c: Chessman) -> Chessman {
    match c {
        Chessman::Black => Chessman::White,
        Chessman::White => Chessman::Black,
    }
}

/// The player whom `msg` comes from.
pub open spec fn sender(msg: GomokuMsg) -> usize {
    match msg {
        GomokuMsg::Ready(id) => id,
        GomokuMsg::Put(id, _, _) => id,
        GomokuMsg::Quit(id) => id,
    }
}

/// The same event for both seats, Black's first.
pub open spec fn to_both(b: usize, w: usize, e: Event) -> Seq<Notice> {
    seq![(b, e), (w, e)]
}

/// A room just formed between `black` and `white`, awaiting readiness.
pub open spec fn formed(black: usize, white: usize) -> RoomView {
    RoomView {
        board: empty_view(),
        history: Seq::empty(),
        black,
        white,
        black_present: true,
        white_present: true,
        black_ready: false,
        white_ready: false,
        state: GomokuState::AwaitingReady,
    }
}

impl RoomView {
    /// The colour of the seat that `id` still occupies.
    pub open spec fn seat_of(self, id: usize) -> Option<Chessman> {
        if self.black_present && id == self.black {
            Some(Chessman::Black)
        } else if self.white_present && id == self.white {
            Some(Chessman::White)
        } else {
            None
        }
    }

    /// The id of the seat of colour `c`.
    pub open spec fn player_of(self, c: Chessman) -> usize {
        match c {
            Chessman::Black => self.black,
            Chessman::White => self.white,
        }
    }

    pub open spec fn is_open(self) -> bool {
        self.state is Forming || self.state is AwaitingReady || self.state is InProgress
    }

    /// The invariant of a room: two distinct seats, a board that the history
    /// replays to, every move of it accepted in turn, both seats held while the
    /// match is open, Abandoned exactly when both are vacated, and never both
    /// seats ready while the room still awaits readiness.
    pub open spec fn well_formed(self) -> bool {
        &&& self.black != self.white
        &&& self.board == replay(self.history)
        &&& all_accepted(self.history)
        &&& self.is_open() ==> self.black_present && self.white_present
        &&& (self.state is Abandoned <==> !self.black_present && !self.white_present)
        &&& self.state is AwaitingReady ==> !(self.black_ready && self.white_ready)
    }

    /// The room after `Ready(id)`.
    pub open spec fn after_ready(self, id: usize) -> RoomView {
        if self.seat_of(id) is Some && self.state is AwaitingReady {
            let br = self.black_ready || id == self.black;
            let wr = self.white_ready || id == self.white;
            RoomView {
                black_ready: br,
                white_ready: wr,
                state: if br && wr {
                    GomokuState::InProgress
                } else {
                    GomokuState::AwaitingReady
                },
                ..self
            }
        } else {
            self
        }
    }

    /// The events of `Ready(id)`.
    pub open spec fn ready_events(self, id: usize) -> Seq<Notice> {
        if self.seat_of(id) is None {
            seq![(id, Event::NotASeatOccupant)]
        } else if self.state is InProgress {
            seq![(id, Event::MatchStarted)]
        } else if !(self.state is AwaitingReady) {
            seq![(id, Event::RoomNotInProgress)]
        } else if self.after_ready(id).state is InProgress {
            to_both(self.black, self.white, Event::MatchStarted)
        } else {
            seq![(id, Event::NotReady)]
        }
    }

    /// Whether `Put(id, x, y)` reaches the board: the match runs and `id` is seated.
    pub open spec fn put_reaches_board(self, id: usize) -> bool {
        self.state is InProgress && self.seat_of(id) is Some
    }

    /// The room after `Put(id, x, y)`.
    pub open spec fn after_put(self, id: usize, x: usize, y: usize) -> RoomView {
        if self.put_reaches_board(id) {
            let c = self.seat_of(id)->0;
            match self.board.put_result(c, x as int, y as int) {
                Ok(w) => RoomView {
                    board: self.board.put_board(c, x as int, y as int),
                    history: self.history.push((c, x, y)),
                    state: if w {
                        GomokuState::Finished(c)
                    } else {
                        self.state
                    },
                    ..self
                },
                Err(_) => self,
            }
        } else {
            self
        }
    }

    /// The events of `Put(id, x, y)`.
    pub open spec fn put_events(self, id: usize, x: usize, y: usize) -> Seq<Notice> {
        if !(self.state is InProgress) {
            seq![(id, Event::RoomNotInProgress)]
        } else if self.seat_of(id) is None {
            seq![(id, Event::NotASeatOccupant)]
        } else {
            let c = self.seat_of(id)->0;
            match self.board.put_result(c, x as int, y as int) {
                Err(e) => seq![(id, Event::MoveRejected(e))],
                Ok(w) => {
                    let accepted = to_both(self.black, self.white, Event::MoveAccepted(c, x, y));
                    if w {
                        accepted + to_both(self.black, self.white, Event::GameWon(c))
                    } else {
                        accepted
                    }
                },
            }
        }
    }

    /// The room after `Quit(id)`: the seat is vacated; with both vacated the
    /// room is Abandoned, and with one left in an open match that one wins by
    /// forfeit.
    pub open spec fn after_quit(self, id: usize) -> RoomView {
        match self.seat_of(id) {
            None => self,
            Some(c) => {
                let bp = self.black_present && c != Chessman::Black;
                let wp = self.white_present && c != Chessman::White;
                RoomView {
                    black_present: bp,
                    white_present: wp,
                    state: if !bp && !wp {
                        GomokuState::Abandoned
                    } else if self.is_open() {
                        GomokuState::Finished(opposite(c))
                    } else {
                        self.state
                    },
                    ..self
                }
            },
        }
    }

    /// The room after `msg`.
    pub open spec fn after(self, msg: GomokuMsg) -> RoomView {
        match msg {
            GomokuMsg::Ready(id) => self.after_ready(id),
            GomokuMsg::Put(id, x, y) => self.after_put(id, x, y),
            GomokuMsg::Quit(id) => self.after_quit(id),
        }
    }

    /// The events of `msg`.
    pub open spec fn events(self, msg: GomokuMsg) -> Seq<Notice> {
        match msg {
            GomokuMsg::Ready(id) => self.ready_events(id),
            GomokuMsg::Put(id, x, y) => self.put_events(id, x, y),
            GomokuMsg::Quit(id) => self.quit_events(id),
        }
    }

    /// The events of `Quit(id)`.
    pub open spec fn quit_events(self, id: usize) -> Seq<Notice> {
        match self.seat_of(id) {
            None => seq![(id, Event::NotASeatOccupant)],
            Some(c) => {
                let other = opposite(c);
                if self.seat_of(self.player_of(other)) == Some(other) && self.is_open() {
                    seq![(self.player_of(other), Event::OpponentLeftForfeit)]
                } else {
                    Seq::empty()
                }
            },
        }
    }
}

impl View for GomokuRoom {
    type V = RoomView;

    closed spec fn view(&self) -> RoomView {
        RoomView {
            board: self.board@,
            history: self.history@,
            black: self.black,
            white: self.white,
            black_present: self.black_present,
            white_present: self.white_present,
            black_ready: self.black_ready,
            white_ready: self.white_ready,
            state: self.state,
        }
    }
}

/// Placing `m` after `h`, when the board that `h` leaves accepts it, keeps
/// every move accepted and the board equal to the replay.
proof fn lemma_push_accepted(h: Seq<Move>, m: Move)
    requires
        all_accepted(h),
        replay(h).check(m.0, m.1 as int, m.2 as int) is Ok,
    ensures
        all_accepted(h.push(m)),
        replay(h.push(m)) == replay(h).put_board(m.0, m.1 as int, m.2 as int),
{
    let g = h.push(m);
    assert(g.drop_last() =~= h);
    assert forall|k: int| 0 <= k < g.len() implies (#[trigger] replay(g.take(k))).check(
        g[k].0,
        g[k].1 as int,
        g[k].2 as int,
    ) is Ok by {
        if k < h.len() {
            assert(g.take(k) =~= h.take(k));
            assert(g[k] == h[k]);
        } else {
            assert(g.take(k) =~= h);
        }
    }
}

impl GomokuRoom {
    /// A room whose seats are `black` and `white`, formed and awaiting both
    /// players' readiness.
    pub fn new(black: usize, white: usize) -> (r: GomokuRoom)
        requires
            black != white,
        ensures
            r@ == formed(black, white),
            r@.well_formed(),
    {
        let board = Board::default();
        let mut room = GomokuRoom {
            board,
            history: Vec::new(),
            black,
            white,
            black_present: true,
            white_present: true,
            black_ready: false,
            white_ready: false,
            state: GomokuState::Forming,
        };
        room.state = GomokuState::AwaitingReady;
        assert(room@.history =~= Seq::<Move>::empty());
        room
    }

    /// The seat of Black.
    pub fn black(&self) -> (r: usize)
        ensures
            r == self@.black,
    {
        self.black
    }

    /// The seat of White.
    pub fn white(&self) -> (r: usize)
        ensures
            r == self@.white,
    {
        self.white
    }

    /// Where the match stands.
    pub fn state(&self) -> (r: GomokuState)
        ensures
            r == self@.state,
    {
        self.state
    }

    /// The accepted moves, in order.
    pub fn history(&self) -> (r: &Vec<Move>)
        ensures
            r@ == self@.history,
    {
        &self.history
    }

    /// The board.
    pub fn board(&self) -> (r: &Board)
        ensures
            r@ == self@.board,
    {
        &self.board
    }

    /// The colour of the seat that `id` still occupies.
    pub fn seat_of(&self, id: usize) -> (r: Option<Chessman>)
        ensures
            r == self@.seat_of(id),
    {
        if self.black_present && id == self.black {
            Some(Chessman::Black)
        } else if self.white_present && id == self.white {
            Some(Chessman::White)
        } else {
            None
        }
    }

    /// Marks the seat of `id` ready; with both ready, the match starts.
    pub fn ready(&mut self, id: usize) -> (r: Vec<Notice>)
        requires
            old(self)@.well_formed(),
        ensures
            final(self)@ == old(self)@.after_ready(id),
            r@ == old(self)@.ready_events(id),
            final(self)@.well_formed(),
    {
        if self.seat_of(id).is_none() {
            return vec![(id, Event::NotASeatOccupant)];
        }
        match self.state {
            GomokuState::AwaitingReady => {},
            GomokuState::InProgress => {
                return vec![(id, Event::MatchStarted)];
            },
            _ => {
                return vec![(id, Event::RoomNotInProgress)];
            },
        }
        if id == self.black {
            self.black_ready = true;
        }
        if id == self.white {
            self.white_ready = true;
        }
        if self.black_ready && self.white_ready {
            self.state = GomokuState::InProgress;
            vec![(self.black, Event::MatchStarted), (self.white, Event::MatchStarted)]
        } else {
            vec![(id, Event::NotReady)]
        }
    }

    /// Places a stone for the seat of `id` at `(x, y)` while the match runs.
    pub fn put(&mut self, id: usize, x: usize, y: usize) -> (r: Vec<Notice>)
        requires
            old(self)@.well_formed(),
        ensures
            final(self)@ == old(self)@.after_put(id, x, y),
            r@ == old(self)@.put_events(id, x, y),
            final(self)@.well_formed(),
    {
        match self.state {
            GomokuState::InProgress => {},
            _ => {
                return vec![(id, Event::RoomNotInProgress)];
            },
        }
        let c = match self.seat_of(id) {
            Some(c) => c,
            None => {
                return vec![(id, Event::NotASeatOccupant)];
            },
        };
        let ghost before = self@;
        match self.board.put_piece(c, x, y) {
            Err(e) => vec![(id, Event::MoveRejected(e))],
            Ok(w) => {
                proof {
                    lemma_push_accepted(before.history, (c, x, y));
                }
                self.history.push((c, x, y));
                let mut out = vec![
                    (self.black, Event::MoveAccepted(c, x, y)),
                    (self.white, Event::MoveAccepted(c, x, y)),
                ];
                if w {
                    self.state = GomokuState::Finished(c);
                    out.push((self.black, Event::GameWon(c)));
                    out.push((self.white, Event::GameWon(c)));
                    assert(out@ =~= to_both(self.black, self.white, Event::MoveAccepted(c, x, y))
                        + to_both(self.black, self.white, Event::GameWon(c)));
                }
                out
            },
        }
    }

    /// Vacates the seat of `id`. With both seats vacated the room is
    /// Abandoned; with one left while the match is open, that one wins by forfeit.
    pub fn quit(&mut self, id: usize) -> (r: Vec<Notice>)
        requires
            old(self)@.well_formed(),
        ensures
            final(self)@ == old(self)@.after_quit(id),
            r@ == old(self)@.quit_events(id),
            final(self)@.well_formed(),
    {
        let c = match self.seat_of(id) {
            Some(c) => c,
            None => {
                return vec![(id, Event::NotASeatOccupant)];
            },
        };
        let open = match self.state {
            GomokuState::Forming | GomokuState::AwaitingReady | GomokuState::InProgress => true,
            _ => false,
        };
        match c {
            Chessman::Black => {
                self.black_present = false;
            },
            Chessman::White => {
                self.white_present = false;
            },
        }
        if !self.black_present && !self.white_present {
            self.state = GomokuState::Abandoned;
            return Vec::new();
        }
        if open {
            let (winner, other) = match c {
                Chessman::Black => (Chessman::White, self.white),
                Chessman::White => (Chessman::Black, self.black),
            };
            self.state = GomokuState::Finished(winner);
            vec![(other, Event::OpponentLeftForfeit)]
        } else {
            Vec::new()
        }
    }

    /// Processes one command.
    pub fn handle(&mut self, msg: GomokuMsg) -> (r: Vec<Notice>)
        requires
            old(self)@.well_formed(),
        ensures
            final(self)@.well_formed(),
            final(self)@ == old(self)@.after(msg),
            r@ == old(self)@.events(msg),
    {
        match msg {
            GomokuMsg::Ready(id) => self.ready(id),
            GomokuMsg::Put(id, x, y) => self.put(id, x, y),
            GomokuMsg::Quit(id) => self.quit(id),
        }
    }
}

/// Ready from a seat that is already ready changes nothing.
pub proof fn lemma_ready_idempotent(v: RoomView, id: usize)
    requires
        v.well_formed(),
        v.seat_of(id) == Some(Chessman::Black) ==> v.black_ready,
        v.seat_of(id) == Some(Chessman::White) ==> v.white_ready,
        v.seat_of(id) is Some,
    ensures
        v.after_ready(id) == v,
{
}

/// Quitting keeps a room well formed.
pub proof fn lemma_quit_well_formed(v: RoomView, id: usize)
    requires
        v.well_formed(),
    ensures
        v.after_quit(id).well_formed(),
{
}

/// The room after each move of `h` is put, in order, by the seat of its colour.
pub open spec fn play(r: RoomView, h: Seq<Move>) -> RoomView
    decreases h.len(),
{
    if h.len() == 0 {
        r
    } else {
        let m = h.last();
        play(r, h.drop_last()).after_put(r.player_of(m.0), m.1, m.2)
    }
}

/// No move of `h` completes five in a row.
pub open spec fn no_five(h: Seq<Move>) -> bool {
    forall|k: int|
        0 <= k < h.len() ==> !(#[trigger] replay(h.take(k))).placed(
            h[k].0,
            h[k].1 as int,
            h[k].2 as int,
        ).five_through(h[k].0, h[k].1 as int, h[k].2 as int)
}

/// In a match that has just started, any sequence of placements that
/// alternates colours from Black, stays on the board, never repeats a cell
/// and never completes five is accepted move after move: the match keeps
/// running, and its history is exactly that sequence, one entry per move.
pub proof fn lemma_alternating_play_accepted(r: RoomView, h: Seq<Move>)
    requires
        r.well_formed(),
        r.state is InProgress,
        r.history.len() == 0,
        alternating_distinct(h),
        no_five(h),
    ensures
        play(r, h) == (RoomView { board: replay(h), history: h, ..r }),
        play(r, h).history.len() == h.len(),
        forall|k: int|
            0 <= k < h.len() ==> (#[trigger] replay(h.take(k))).put_result(
                h[k].0,
                h[k].1 as int,
                h[k].2 as int,
            ) == Ok::<bool, crate::board::Error>(false),
    decreases h.len(),
{
    lemma_alternating_moves_accepted(h);
    if h.len() > 0 {
        let n = h.len() - 1;
        let p = h.drop_last();
        assert(alternating_distinct(p)) by {
            assert forall|k: int| 0 <= k < p.len() implies #[trigger] p[k] == h[k] by {}
        }
        assert(no_five(p)) by {
            assert forall|k: int| 0 <= k < p.len() implies #[trigger] p.take(k) == h.take(k) by {
                assert(p.take(k) =~= h.take(k));
            }
            assert forall|k: int| 0 <= k < p.len() implies #[trigger] p[k] == h[k] by {}
        }
        assert(r.board == empty_view()) by {
            assert(r.history =~= Seq::<Move>::empty());
        }
        lemma_alternating_play_accepted(r, p);
        let m = h.last();
        assert(h.take(n) =~= p);
        assert(m == h[n]);
        let q = play(r, p);
        assert(q.seat_of(r.player_of(m.0)) == Some(m.0));
        assert(replay(p).put_result(m.0, m.1 as int, m.2 as int) == Ok::<bool, crate::board::Error>(
            false,
        ));
        assert(p.push(m) =~= h);
    } else {
        assert(r.history =~= h);
    }
}

/// A well-formed room's board is what replaying its history from an empty
/// board gives, and each move of the history was accepted in turn.
pub proof fn lemma_history_replays_to_board(room: &GomokuRoom)
    requires
        room@.well_formed(),
    ensures
        room@.board == replay(room@.history),
        all_accepted(room@.history),
{
}

} // verus!
