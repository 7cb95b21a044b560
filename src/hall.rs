//! The hall: the sessions, the matchmaking queue with its set of live
//! requests, and the directory from players to their rooms.
use vstd::prelude::*;
use vstd::std_specs::hash::group_hash_axioms;
use vstd::std_specs::iter::IteratorSpec;

use std::collections::HashMap;
use std::collections::HashSet;
use std::collections::VecDeque;

use crate::msg::{ChatMsg, Event, GomokuMsg, HallMsg, Notice};
use crate::room::{formed, lemma_quit_well_formed, sender, GomokuRoom, GomokuState, RoomView};

verus! {

broadcast use group_hash_axioms;

/// The registry and matchmaker.
pub struct Hall {
    sessions: HashMap<usize, String>,
    gomoku_q: VecDeque<usize>,
    gomoku_queued_users: HashSet<usize>,
    gomoku_rooms: HashMap<usize, usize>,
    rooms: HashMap<usize, GomokuRoom>,
    next_room: usize,
}

/// The content of the hall: each live player's name, the queue in order,
/// the players whose requests are live, each seated player's room id, the
/// rooms by id, and the id the next room gets.
pub struct HallView {
    pub sessions: Map<usize, String>,
    pub queue: Seq<usize>,
    pub queued: Set<usize>,
    pub room_of: Map<usize, usize>,
    pub rooms: Map<usize, RoomView>,
    pub next_room: usize,
}

/// `q[i]` is the first player of the queue whose request is live.
pub open spec fn first_live(q: Seq<usize>, live: Set<usize>, i: int) -> bool {
    &&& 0 <= i < q.len()
    &&& live.contains(q[i])
    &&& forall|j: int| 0 <= j < i ==> !live.contains(#[trigger] q[j])
}

/// No entry of the queue is live.
pub open spec fn none_live(q: Seq<usize>, live: Set<usize>) -> bool {
    forall|j: int| 0 <= j < q.len() ==> !live.contains(#[trigger] q[j])
}

impl HallView {
    /// Why `StartGomoku(player)` is refused, if it is.
    pub open spec fn start_refusal(self, player: usize) -> Option<Event> {
        if !self.sessions.contains_key(player) {
            Some(Event::UnknownPlayer)
        } else if self.room_of.contains_key(player) {
            Some(Event::AlreadyPlaying)
        } else if self.queued.contains(player) {
            Some(Event::AlreadyQueued)
        } else {
            None
        }
    }

    /// The index of the first live entry of the queue.
    pub open spec fn first_live_index(self) -> int {
        choose|i: int| first_live(self.queue, self.queued, i)
    }

    /// The hall after `StartGomoku(player)`.
    pub open spec fn after_start(self, player: usize) -> HallView {
        if self.start_refusal(player) is Some {
            self
        } else if self.next_room == usize::MAX {
            self.enqueued(player, self.queue)
        } else if none_live(self.queue, self.queued) {
            self.enqueued(player, Seq::empty())
        } else {
            self.matched(player, self.first_live_index())
        }
    }

    /// The events of `StartGomoku(player)`.
    pub open spec fn start_events(self, player: usize) -> Seq<Notice> {
        if self.start_refusal(player) is Some {
            seq![(player, self.start_refusal(player)->0)]
        } else if self.next_room == usize::MAX || none_live(self.queue, self.queued) {
            seq![(player, Event::Waiting)]
        } else {
            self.matched_events(player, self.first_live_index())
        }
    }

    /// `r` addresses the chat line of `msg` once to each live session.
    pub open spec fn chat_notices(self, msg: ChatMsg, r: Seq<Notice>) -> bool {
        &&& r.len() == self.sessions.dom().len()
        &&& forall|i: int| 0 <= i < r.len() ==> self.sessions.contains_key(#[trigger] r[i].0)
        &&& forall|i: int, j: int| 0 <= i < j < r.len() ==> #[trigger] r[i].0 != #[trigger] r[j].0
        &&& forall|i: int|
            0 <= i < r.len() ==> match (#[trigger] r[i]).1 {
                Event::Chat(l) => l@ == chat_text(msg.name@, msg.content@),
                _ => false,
            }
    }

    /// The hall with `player` queued behind the entries `rest`.
    pub open spec fn enqueued(self, player: usize, rest: Seq<usize>) -> HallView {
        HallView { queue: rest.push(player), queued: self.queued.insert(player), ..self }
    }

    /// The hall once `player` is matched with the queued player at `i`: the
    /// entries up to `i` leave the queue, and a room is formed in which the
    /// waiting player holds Black and `player` White.
    pub open spec fn matched(self, player: usize, i: int) -> HallView {
        let a = self.queue[i];
        let rid = self.next_room;
        HallView {
            queue: self.queue.subrange(i + 1, self.queue.len() as int),
            queued: self.queued.remove(a),
            room_of: self.room_of.insert(a, rid).insert(player, rid),
            rooms: self.rooms.insert(rid, formed(a, player)),
            next_room: (rid + 1) as usize,
            ..self
        }
    }

    /// The events of a match between `player` and the queued player at `i`:
    /// each learns the other's name.
    pub open spec fn matched_events(self, player: usize, i: int) -> Seq<Notice> {
        let a = self.queue[i];
        seq![
            (a, Event::MatchFound(self.sessions[player])),
            (player, Event::MatchFound(self.sessions[a])),
        ]
    }

    /// The invariant of the hall. A queued player is live and has no room; a
    /// player with a room is live and holds a seat in it; each room is well
    /// formed, not abandoned, and has an id below `next_room`; and every seat
    /// held in a room maps back to that room, so that no player has two rooms.
    pub open spec fn well_formed(self) -> bool {
        &&& forall|p: usize|
            #[trigger] self.queued.contains(p) ==> !self.room_of.contains_key(p)
                && self.sessions.contains_key(p)
        &&& forall|p: usize|
            #[trigger] self.room_of.contains_key(p) ==> self.sessions.contains_key(p)
                && self.rooms.contains_key(self.room_of[p])
                && self.rooms[self.room_of[p]].seat_of(p) is Some
        &&& forall|rid: usize|
            #[trigger] self.rooms.contains_key(rid) ==> rid < self.next_room
                && self.rooms[rid].well_formed() && !(self.rooms[rid].state is Abandoned)
        &&& forall|rid: usize, p: usize|
            self.rooms.contains_key(rid) && (#[trigger] self.rooms[rid].seat_of(p)) is Some
                ==> self.room_of.contains_key(p) && self.room_of[p] == rid
    }

    /// The hall after `msg` is routed to the sender's room: the room takes
    /// it; an abandoned room leaves the registry; a player who quits loses
    /// the mapping to the room. Without a room, nothing changes.
    pub open spec fn after_route(self, msg: GomokuMsg) -> HallView {
        let id = sender(msg);
        if self.room_of.contains_key(id) {
            let rid = self.room_of[id];
            let room = self.rooms[rid].after(msg);
            HallView {
                rooms: if room.state is Abandoned {
                    self.rooms.remove(rid)
                } else {
                    self.rooms.insert(rid, room)
                },
                room_of: if msg is Quit {
                    self.room_of.remove(id)
                } else {
                    self.room_of
                },
                ..self
            }
        } else {
            self
        }
    }

    /// The events of routing `msg`: the room's, or none without a room.
    pub open spec fn route_events(self, msg: GomokuMsg) -> Seq<Notice> {
        let id = sender(msg);
        if self.room_of.contains_key(id) {
            self.rooms[self.room_of[id]].events(msg)
        } else {
            Seq::empty()
        }
    }

    /// The hall after `player` disconnects: a seat is quit first, then the
    /// session and any live request go.
    pub open spec fn after_disconnect(self, player: usize) -> HallView {
        let h = self.after_route(GomokuMsg::Quit(player));
        HallView {
            sessions: h.sessions.remove(player),
            queued: h.queued.remove(player),
            ..h
        }
    }

    /// The hall with `player`'s request withdrawn.
    pub open spec fn after_cancel(self, player: usize) -> HallView {
        if self.sessions.contains_key(player) {
            HallView { queued: self.queued.remove(player), ..self }
        } else {
            self
        }
    }

    /// The events of `CancelGomoku(player)`.
    pub open spec fn cancel_events(self, player: usize) -> Seq<Notice> {
        if self.sessions.contains_key(player) {
            seq![(player, Event::Canceled)]
        } else {
            seq![(player, Event::UnknownPlayer)]
        }
    }
}

proof fn lemma_matched_well_formed(h: HallView, player: usize, i: int)
    requires
        h.well_formed(),
        h.start_refusal(player) is None,
        h.next_room < usize::MAX,
        first_live(h.queue, h.queued, i),
    ensures
        h.matched(player, i).well_formed(),
{
    let a = h.queue[i];
    let m = h.matched(player, i);
    let rid = h.next_room;
    assert(a != player);
    assert(formed(a, player).well_formed()) by {
        assert(formed(a, player).history =~= Seq::<crate::board::Move>::empty());
    }
    assert forall|r: usize, p: usize| m.rooms.contains_key(r) && (#[trigger] m.rooms[r].seat_of(p)) is Some implies m.room_of.contains_key(p) && m.room_of[p] == r by {
        if r != rid {
            assert(h.rooms[r].seat_of(p) is Some);
            if p == a || p == player {
                assert(h.room_of.contains_key(p));
            }
        }
    }
    assert forall|p: usize| #[trigger] m.room_of.contains_key(p) implies m.sessions.contains_key(p)
        && m.rooms.contains_key(m.room_of[p]) && m.rooms[m.room_of[p]].seat_of(p) is Some by {
        if p != a && p != player {
            assert(h.room_of.contains_key(p));
            assert(h.room_of[p] < rid);
        }
    }
}

/// Relies on rand::random: a fresh draw from the thread's generator; nothing
/// is known of its value.
#[verifier::external_body]
fn draw_id() -> (r: usize) {
    rand::random::<usize>()
}

/// A finite set of ids that holds each of `0 .. k` has at least `k` elements.
proof fn lemma_prefix_len(s: Set<usize>, k: nat)
    requires
        s.finite(),
        k <= usize::MAX + 1,
        forall|i: usize| i < k ==> s.contains(i),
    ensures
        s.len() >= k,
    decreases k,
{
    if k > 0 {
        let last = (k - 1) as usize;
        let t = s.remove(last);
        assert forall|i: usize| i < k - 1 implies t.contains(i) by {}
        lemma_prefix_len(t, (k - 1) as nat);
        assert(s.contains(last));
    }
}

/// The chat line `name: content`.
pub open spec fn chat_text(name: Seq<char>, content: Seq<char>) -> Seq<char> {
    name + seq![':', ' '] + content
}

/// Formats a chat line as `name: content`.
pub fn chat_line(msg: &ChatMsg) -> (r: String)
    ensures
        r@ == chat_text(msg.name@, msg.content@),
{
    let mut line = msg.name.clone();
    line.append(": ");
    line.append(msg.content.as_str());
    proof {
        reveal_strlit(": ");
    }
    assert(line@ =~= chat_text(msg.name@, msg.content@));
    line
}

proof fn lemma_route_well_formed(h: HallView, msg: GomokuMsg)
    requires
        h.well_formed(),
        h.room_of.contains_key(sender(msg)) ==> h.rooms[h.room_of[sender(msg)]].after(
            msg,
        ).well_formed(),
    ensures
        h.after_route(msg).well_formed(),
{
    let id = sender(msg);
    if h.room_of.contains_key(id) {
        let rid = h.room_of[id];
        let before = h.rooms[rid];
        let room = before.after(msg);
        let m = h.after_route(msg);
        assert(before.seat_of(id) is Some);
        assert(room.well_formed());
        assert forall|p: usize| #[trigger] room.seat_of(p) is Some implies before.seat_of(p) is Some
            && p != id || !(msg is Quit) by {}
        assert forall|p: usize| #[trigger] m.room_of.contains_key(p) implies m.sessions.contains_key(p)
            && m.rooms.contains_key(m.room_of[p]) && m.rooms[m.room_of[p]].seat_of(p) is Some by {
            assert(h.room_of.contains_key(p));
            if h.room_of[p] == rid {
                assert(before.seat_of(p) is Some);
            }
        }
        assert forall|r: usize, p: usize| m.rooms.contains_key(r) && (#[trigger] m.rooms[r].seat_of(p)) is Some implies m.room_of.contains_key(p) && m.room_of[p] == r by {
            if r != rid {
                assert(h.rooms[r].seat_of(p) is Some);
                if p == id {
                    assert(h.room_of[p] == r);
                }
            } else {
                assert(before.seat_of(p) is Some);
            }
        }
    }
}

proof fn lemma_disconnect_well_formed(h: HallView, player: usize)
    requires
        h.well_formed(),
        h.after_route(GomokuMsg::Quit(player)).well_formed(),
    ensures
        h.after_disconnect(player).well_formed(),
{
    let g = h.after_route(GomokuMsg::Quit(player));
    assert(!g.room_of.contains_key(player));
}

/// Two distinct live players who ask for a match, one after the other, on a
/// hall with an empty queue, share exactly one new room: the first holds
/// Black, the second White, and neither stays queued.
pub proof fn lemma_two_requests_form_one_room(h: HallView, p1: usize, p2: usize)
    requires
        h.well_formed(),
        h.queue.len() == 0,
        h.queued.is_empty(),
        p1 != p2,
        h.sessions.contains_key(p1),
        h.sessions.contains_key(p2),
        !h.room_of.contains_key(p1),
        !h.room_of.contains_key(p2),
        h.next_room < usize::MAX,
    ensures
        h.after_start(p1).rooms == h.rooms,
        ({
            let g = h.after_start(p1).after_start(p2);
            &&& g.room_of.contains_key(p1)
            &&& g.room_of.contains_key(p2)
            &&& g.room_of[p1] == g.room_of[p2]
            &&& g.room_of[p1] == h.next_room
            &&& !h.rooms.contains_key(h.next_room)
            &&& g.rooms == h.rooms.insert(h.next_room, formed(p1, p2))
            &&& g.queue.len() == 0
            &&& g.queued.is_empty()
        }),
{
    assert(none_live(h.queue, h.queued));
    let h1 = h.after_start(p1);
    assert(h1.queue =~= seq![p1]);
    assert(first_live(h1.queue, h1.queued, 0));
    let k = h1.first_live_index();
    assert(first_live(h1.queue, h1.queued, k));
    assert(k == 0);
    let g = h1.after_start(p2);
    assert(g.queued =~= Set::<usize>::empty());
}

/// A player who withdraws a request and asks again, with no one else
/// queued, is not matched with the withdrawn entry: no room is formed, the
/// player is queued again, and the withdrawn entry leaves the queue.
pub proof fn lemma_cancel_then_start_not_self_matched(h: HallView, p: usize)
    requires
        h.well_formed(),
        h.queue == seq![p],
        h.queued == set![p],
        h.next_room < usize::MAX,
    ensures
        ({
            let g = h.after_cancel(p).after_start(p);
            &&& g.rooms == h.rooms
            &&& !g.room_of.contains_key(p)
            &&& g.queued.contains(p)
            &&& g.queue == seq![p]
            &&& h.after_cancel(p).start_events(p) == seq![(p, Event::Waiting)]
        }),
{
    assert(h.queued.contains(p));
    assert(h.sessions.contains_key(p));
    let c = h.after_cancel(p);
    assert(c.queued =~= Set::<usize>::empty());
    assert(c.start_refusal(p) is None);
    assert(none_live(c.queue, c.queued));
    assert(Seq::<usize>::empty().push(p) =~= seq![p]);
}

/// Once both seats of a room quit, through the hall, the room has been
/// abandoned and has left the registry, and no player maps to it any more.
pub proof fn lemma_both_quits_remove_room(h: HallView, a: usize, b: usize)
    requires
        h.well_formed(),
        a != b,
        h.room_of.contains_key(a),
        h.room_of.contains_key(b),
        h.room_of[a] == h.room_of[b],
    ensures
        ({
            let rid = h.room_of[a];
            let h1 = h.after_route(GomokuMsg::Quit(a));
            let g = h1.after_route(GomokuMsg::Quit(b));
            &&& h1.rooms[rid].after_quit(b).state is Abandoned
            &&& !g.rooms.contains_key(rid)
            &&& forall|k: usize| #[trigger] g.room_of.contains_key(k) ==> g.room_of[k] != rid
            &&& g.well_formed()
        }),
{
    let rid = h.room_of[a];
    lemma_quit_well_formed(h.rooms[rid], a);
    lemma_route_well_formed(h, GomokuMsg::Quit(a));
    let h1 = h.after_route(GomokuMsg::Quit(a));
    assert(h.rooms[rid].seat_of(b) is Some);
    assert(h.rooms[rid].seat_of(a) is Some);
    assert(h1.room_of.contains_key(b));
    assert(h1.rooms.contains_key(rid));
    assert(h1.room_of[b] == rid);
    lemma_quit_well_formed(h1.rooms[rid], b);
    lemma_route_well_formed(h1, GomokuMsg::Quit(b));
}

impl View for Hall {
    type V = HallView;

    closed spec fn view(&self) -> HallView {
        HallView {
            sessions: self.sessions@,
            queue: self.gomoku_q@,
            queued: self.gomoku_queued_users@,
            room_of: self.gomoku_rooms@,
            rooms: self.rooms@.map_values(|r: GomokuRoom| r@),
            next_room: self.next_room,
        }
    }
}

impl Hall {
    /// An empty hall.
    pub fn new() -> (h: Hall)
        ensures
            h@.sessions.is_empty(),
            h@.queue.len() == 0,
            h@.queued.is_empty(),
            h@.room_of.is_empty(),
            h@.rooms.is_empty(),
            h@.well_formed(),
    {
        let h = Hall {
            sessions: HashMap::new(),
            gomoku_q: VecDeque::new(),
            gomoku_queued_users: HashSet::new(),
            gomoku_rooms: HashMap::new(),
            rooms: HashMap::new(),
            next_room: 0,
        };
        assert(h@.rooms =~= Map::<usize, RoomView>::empty());
        h
    }

    /// Registers a session under `id`, which must not be live already.
    pub fn register(&mut self, id: usize, name: String) -> (r: bool)
        requires
            old(self)@.well_formed(),
        ensures
            final(self)@.well_formed(),
            r == !old(self)@.sessions.contains_key(id),
            r ==> final(self)@ == (HallView {
                sessions: old(self)@.sessions.insert(id, name),
                ..old(self)@
            }),
            !r ==> final(self)@ == old(self)@,
    {
        if self.sessions.contains_key(&id) {
            return false;
        }
        self.sessions.insert(id, name);
        true
    }

    /// Asks for a match. A player who is unknown, seated or queued is
    /// refused. Otherwise the queue is scanned from the front: stale entries
    /// are dropped, and the first live one is matched with `player` in a new
    /// room; with none, `player` is queued. Once room ids are exhausted,
    /// `player` is queued behind the others.
    pub fn start_gomoku(&mut self, player: usize) -> (r: Vec<Notice>)
        requires
            old(self)@.well_formed(),
        ensures
            final(self)@.well_formed(),
            final(self)@ == old(self)@.after_start(player),
            r@ == old(self)@.start_events(player),
    {
        if !self.sessions.contains_key(&player) {
            return vec![(player, Event::UnknownPlayer)];
        }
        if self.gomoku_rooms.contains_key(&player) {
            return vec![(player, Event::AlreadyPlaying)];
        }
        if self.gomoku_queued_users.contains(&player) {
            return vec![(player, Event::AlreadyQueued)];
        }
        let ghost h = self@;
        if self.next_room == usize::MAX {
            self.gomoku_q.push_back(player);
            self.gomoku_queued_users.insert(player);
            return vec![(player, Event::Waiting)];
        }
        let ghost q0 = self.gomoku_q@;
        let ghost mut i0: int = 0;
        while self.gomoku_q.len() > 0
            invariant
                h.well_formed(),
                h.start_refusal(player) is None,
                h.next_room < usize::MAX,
                q0 == h.queue,
                h == old(self)@,
                0 <= i0 <= q0.len(),
                self.gomoku_q@ == q0.subrange(i0, q0.len() as int),
                forall|j: int| 0 <= j < i0 ==> !h.queued.contains(#[trigger] q0[j]),
                self@ == (HallView { queue: self.gomoku_q@, ..h }),
            decreases self.gomoku_q@.len(),
        {
            let another = self.gomoku_q.pop_front().unwrap();
            proof {
                assert(another == q0[i0]);
                i0 = i0 + 1;
                assert(self.gomoku_q@ =~= q0.subrange(i0, q0.len() as int));
            }
            if self.gomoku_queued_users.remove(&another) {
                let ghost i = i0 - 1;
                proof {
                    assert(first_live(q0, h.queued, i));
                    assert(!none_live(q0, h.queued));
                    let k = h.first_live_index();
                    assert(first_live(q0, h.queued, k));
                    if k < i {
                        assert(!h.queued.contains(q0[k]));
                    } else if k > i {
                        assert(!h.queued.contains(q0[i]));
                    }
                    assert(k == i);
                }
                let rid = self.next_room;
                self.next_room = self.next_room + 1;
                let room = GomokuRoom::new(another, player);
                self.rooms.insert(rid, room);
                self.gomoku_rooms.insert(another, rid);
                self.gomoku_rooms.insert(player, rid);
                let player_name = match self.sessions.get(&player) {
                    Some(n) => n.clone(),
                    None => String::new(),
                };
                let another_name = match self.sessions.get(&another) {
                    Some(n) => n.clone(),
                    None => String::new(),
                };
                let ghost m = h.matched(player, i);
                assert(self@.rooms =~= m.rooms);
                assert(self@.room_of =~= m.room_of);
                assert(self@.queued =~= m.queued);
                assert(self@ == m);
                proof {
                    lemma_matched_well_formed(h, player, i);
                }
                return vec![
                    (another, Event::MatchFound(player_name)),
                    (player, Event::MatchFound(another_name)),
                ];
            }
            assert(self@.queued =~= h.queued);
        }
        assert(none_live(h.queue, h.queued));
        self.gomoku_q.push_back(player);
        self.gomoku_queued_users.insert(player);
        assert(self@.queue =~= Seq::<usize>::empty().push(player));
        vec![(player, Event::Waiting)]
    }

    /// Hands `msg` to the room of its sender, or drops it where the sender
    /// has no room.
    pub fn route(&mut self, msg: GomokuMsg) -> (r: Vec<Notice>)
        requires
            old(self)@.well_formed(),
        ensures
            final(self)@.well_formed(),
            final(self)@ == old(self)@.after_route(msg),
            r@ == old(self)@.route_events(msg),
    {
        let id = match msg {
            GomokuMsg::Ready(id) => id,
            GomokuMsg::Put(id, _, _) => id,
            GomokuMsg::Quit(id) => id,
        };
        let rid = match self.gomoku_rooms.get(&id) {
            Some(rid) => *rid,
            None => {
                return Vec::new();
            },
        };
        let ghost h = self@;
        let mut room = self.rooms.remove(&rid).unwrap();
        let out = room.handle(msg);
        let abandoned = match room.state() {
            GomokuState::Abandoned => true,
            _ => false,
        };
        if !abandoned {
            self.rooms.insert(rid, room);
        }
        let quit = match msg {
            GomokuMsg::Quit(_) => true,
            _ => false,
        };
        if quit {
            self.gomoku_rooms.remove(&id);
        }
        let ghost m = h.after_route(msg);
        assert(self@.rooms =~= m.rooms);
        assert(self@.room_of =~= m.room_of);
        proof {
            lemma_route_well_formed(h, msg);
        }
        out
    }

    /// Ends `player`'s session: a seat is quit, and the session and any live
    /// request are removed.
    pub fn disconnect(&mut self, player: usize) -> (r: Vec<Notice>)
        requires
            old(self)@.well_formed(),
        ensures
            final(self)@.well_formed(),
            final(self)@ == old(self)@.after_disconnect(player),
            r@ == old(self)@.route_events(GomokuMsg::Quit(player)),
    {
        let out = self.route(GomokuMsg::Quit(player));
        self.sessions.remove(&player);
        self.gomoku_queued_users.remove(&player);
        assert(self@.sessions =~= old(self)@.after_disconnect(player).sessions);
        assert(self@.queued =~= old(self)@.after_disconnect(player).queued);
        proof {
            lemma_disconnect_well_formed(old(self)@, player);
        }
        out
    }

    /// Connects a session under `name`. Its id is drawn at random and
    /// checked against the live ones; where the draw collides, the smallest
    /// id that no live session holds is taken instead.
    pub fn connect(&mut self, name: String) -> (r: usize)
        requires
            old(self)@.well_formed(),
        ensures
            final(self)@.well_formed(),
            !old(self)@.sessions.contains_key(r),
            final(self)@ == (HallView { sessions: old(self)@.sessions.insert(r, name), ..old(self)@ }),
    {
        let drawn = draw_id();
        let id = if !self.sessions.contains_key(&drawn) {
            drawn
        } else {
            self.free_id()
        };
        self.register(id, name);
        id
    }

    /// The smallest id that no live session holds.
    fn free_id(&self) -> (r: usize)
        ensures
            !self@.sessions.contains_key(r),
            forall|i: usize| i < r ==> self@.sessions.contains_key(i),
    {
        let n = self.sessions.len();
        let mut c: usize = 0;
        while c < n
            invariant
                c <= n,
                n == self@.sessions.dom().len(),
                forall|i: usize| i < c ==> self@.sessions.contains_key(i),
            decreases n - c,
        {
            if !self.sessions.contains_key(&c) {
                return c;
            }
            c = c + 1;
        }
        proof {
            if self@.sessions.contains_key(n) {
                lemma_prefix_len(self@.sessions.dom(), (n + 1) as nat);
            }
        }
        n
    }

    /// Addresses the chat line of `msg` to every live session.
    pub fn chat(&self, msg: &ChatMsg) -> (r: Vec<Notice>)
        ensures
            self@.chat_notices(*msg, r@),
    {
        let line = chat_line(msg);
        let mut out: Vec<Notice> = Vec::new();
        let keys = self.sessions.keys();
        proof {
            assert forall|i: int| 0 <= i < keys.remaining().len() implies self@.sessions.contains_key(
                *#[trigger] keys.remaining()[i],
            ) by {
                assert(keys.remaining().unref()[i] == *keys.remaining()[i]);
                assert(keys.remaining().unref().to_set().contains(keys.remaining().unref()[i]));
            }
        }
        for k in it: keys
            invariant
                out@.len() == it.index(),
                forall|i: int|
                    0 <= i < it.seq().len() ==> self@.sessions.contains_key(*#[trigger] it.seq()[i]),
                forall|i: int| 0 <= i < out@.len() ==> (#[trigger] out@[i]) == (*it.seq()[i], Event::Chat(line)),
        {
            out.push((*k, Event::Chat(line.clone())));
        }
        out
    }

    /// Processes one command for the hall.
    pub fn handle(&mut self, msg: HallMsg) -> (r: Vec<Notice>)
        requires
            old(self)@.well_formed(),
        ensures
            final(self)@.well_formed(),
            match msg {
                HallMsg::StartGomoku(p) => final(self)@ == old(self)@.after_start(p)
                    && r@ == old(self)@.start_events(p),
                HallMsg::CancelGomoku(p) => final(self)@ == old(self)@.after_cancel(p)
                    && r@ == old(self)@.cancel_events(p),
                HallMsg::Chat(m) => final(self)@ == old(self)@ && old(self)@.chat_notices(m, r@),
            },
    {
        match msg {
            HallMsg::StartGomoku(player) => self.start_gomoku(player),
            HallMsg::CancelGomoku(player) => self.cancel_gomoku(player),
            HallMsg::Chat(m) => self.chat(&m),
        }
    }

    /// Whether `player` is live.
    pub fn is_connected(&self, player: usize) -> (r: bool)
        ensures
            r == self@.sessions.contains_key(player),
    {
        self.sessions.contains_key(&player)
    }

    /// Whether `player`'s request for a match is live.
    pub fn is_queued(&self, player: usize) -> (r: bool)
        ensures
            r == self@.queued.contains(player),
    {
        self.gomoku_queued_users.contains(&player)
    }

    /// The id of the room where `player` is seated.
    pub fn room_of(&self, player: usize) -> (r: Option<usize>)
        ensures
            r == (if self@.room_of.contains_key(player) {
                Some(self@.room_of[player])
            } else {
                None
            }),
    {
        match self.gomoku_rooms.get(&player) {
            Some(rid) => Some(*rid),
            None => None,
        }
    }

    /// The room with id `rid`.
    pub fn room(&self, rid: usize) -> (r: Option<&GomokuRoom>)
        ensures
            match r {
                Some(room) => self@.rooms.contains_key(rid) && room@ == self@.rooms[rid],
                None => !self@.rooms.contains_key(rid),
            },
    {
        self.rooms.get(&rid)
    }

    /// How many rooms the registry holds.
    pub fn room_count(&self) -> (r: usize)
        ensures
            r == self@.rooms.dom().len(),
    {
        assert(self@.rooms.dom() =~= self.rooms@.dom());
        self.rooms.len()
    }

    /// Withdraws `player`'s request; its place in the queue is dropped when
    /// the queue is next scanned.
    pub fn cancel_gomoku(&mut self, player: usize) -> (r: Vec<Notice>)
        requires
            old(self)@.well_formed(),
        ensures
            final(self)@.well_formed(),
            final(self)@ == old(self)@.after_cancel(player),
            r@ == old(self)@.cancel_events(player),
    {
        if !self.sessions.contains_key(&player) {
            return vec![(player, Event::UnknownPlayer)];
        }
        self.gomoku_queued_users.remove(&player);
        vec![(player, Event::Canceled)]
    }
}

} // verus!
