use gomoku::{Chessman, Error, Event, GomokuMsg, GomokuRoom, GomokuState};

fn started_room() -> GomokuRoom {
    let mut room = GomokuRoom::new(1, 2);
    assert_eq!(room.ready(1), vec![(1, Event::NotReady)]);
    assert_eq!(room.ready(2), vec![(1, Event::MatchStarted), (2, Event::MatchStarted)]);
    assert_eq!(room.state(), GomokuState::InProgress);
    room
}

fn accepted(c: Chessman, x: usize, y: usize) -> Vec<(usize, Event)> {
    vec![(1, Event::MoveAccepted(c, x, y)), (2, Event::MoveAccepted(c, x, y))]
}

#[test]
fn new_room_awaits_readiness() {
    let room = GomokuRoom::new(5, 9);
    assert_eq!(room.state(), GomokuState::AwaitingReady);
    assert_eq!(room.black(), 5);
    assert_eq!(room.white(), 9);
    assert_eq!(room.seat_of(5), Some(Chessman::Black));
    assert_eq!(room.seat_of(9), Some(Chessman::White));
    assert_eq!(room.seat_of(7), None);
    assert!(room.history().is_empty());
}

#[test]
fn ready_is_idempotent() {
    let mut room = GomokuRoom::new(1, 2);
    assert_eq!(room.ready(2), vec![(2, Event::NotReady)]);
    assert_eq!(room.ready(2), vec![(2, Event::NotReady)]);
    assert_eq!(room.state(), GomokuState::AwaitingReady);
    assert_eq!(room.ready(1), vec![(1, Event::MatchStarted), (2, Event::MatchStarted)]);
    assert_eq!(room.ready(1), vec![(1, Event::MatchStarted)]);
    assert_eq!(room.state(), GomokuState::InProgress);
}

#[test]
fn ready_from_a_stranger_is_refused() {
    let mut room = GomokuRoom::new(1, 2);
    assert_eq!(room.ready(3), vec![(3, Event::NotASeatOccupant)]);
    assert_eq!(room.state(), GomokuState::AwaitingReady);
}

#[test]
fn put_before_start_is_refused() {
    let mut room = GomokuRoom::new(1, 2);
    assert_eq!(room.put(1, 7, 7), vec![(1, Event::RoomNotInProgress)]);
    assert!(room.history().is_empty());
}

#[test]
fn put_from_a_stranger_is_refused() {
    let mut room = started_room();
    assert_eq!(room.put(3, 7, 7), vec![(3, Event::NotASeatOccupant)]);
    assert!(room.history().is_empty());
}

#[test]
fn board_rejections_go_to_the_mover_only() {
    let mut room = started_room();
    assert_eq!(room.put(2, 7, 7), vec![(2, Event::MoveRejected(Error::NotYourTurn))]);
    assert_eq!(room.put(1, 15, 7), vec![(1, Event::MoveRejected(Error::OutOfBounds))]);
    assert_eq!(room.put(1, 7, 7), accepted(Chessman::Black, 7, 7));
    assert_eq!(room.put(2, 7, 7), vec![(2, Event::MoveRejected(Error::InvalidPos))]);
    assert_eq!(room.history().len(), 1);
    assert_eq!(room.state(), GomokuState::InProgress);
}

#[test]
fn black_wins_with_the_fifth_stone() {
    let mut room = started_room();
    let blacks = [(7, 7), (6, 7), (5, 7), (4, 7)];
    let whites = [(7, 8), (6, 9), (5, 10), (0, 0)];
    for k in 0..4 {
        let (bx, by) = blacks[k];
        assert_eq!(room.put(1, bx, by), accepted(Chessman::Black, bx, by));
        let (wx, wy) = whites[k];
        assert_eq!(room.put(2, wx, wy), accepted(Chessman::White, wx, wy));
        assert_eq!(room.state(), GomokuState::InProgress);
    }
    let mut expected = accepted(Chessman::Black, 3, 7);
    expected.push((1, Event::GameWon(Chessman::Black)));
    expected.push((2, Event::GameWon(Chessman::Black)));
    assert_eq!(room.put(1, 3, 7), expected);
    assert_eq!(room.state(), GomokuState::Finished(Chessman::Black));
    assert_eq!(room.history().len(), 9);
    assert_eq!(room.put(2, 1, 1), vec![(2, Event::RoomNotInProgress)]);
}

#[test]
fn quit_in_progress_forfeits_to_the_other_seat() {
    let mut room = started_room();
    assert_eq!(room.put(1, 7, 7), accepted(Chessman::Black, 7, 7));
    assert_eq!(room.quit(1), vec![(2, Event::OpponentLeftForfeit)]);
    assert_eq!(room.state(), GomokuState::Finished(Chessman::White));
    assert_eq!(room.seat_of(1), None);
    assert_eq!(room.put(2, 0, 0), vec![(2, Event::RoomNotInProgress)]);
}

#[test]
fn both_seats_quitting_abandons_the_room() {
    let mut room = GomokuRoom::new(1, 2);
    assert_eq!(room.quit(2), vec![(1, Event::OpponentLeftForfeit)]);
    assert_eq!(room.state(), GomokuState::Finished(Chessman::Black));
    assert_eq!(room.quit(2), vec![(2, Event::NotASeatOccupant)]);
    assert_eq!(room.quit(1), vec![]);
    assert_eq!(room.state(), GomokuState::Abandoned);
}

#[test]
fn handle_dispatches_commands() {
    let mut room = GomokuRoom::new(1, 2);
    room.handle(GomokuMsg::Ready(1));
    assert_eq!(
        room.handle(GomokuMsg::Ready(2)),
        vec![(1, Event::MatchStarted), (2, Event::MatchStarted)]
    );
    assert_eq!(room.handle(GomokuMsg::Put(1, 2, 3)), accepted(Chessman::Black, 2, 3));
    assert_eq!(room.board().dump_states()[2][3], 1);
    assert_eq!(room.handle(GomokuMsg::Quit(2)), vec![(1, Event::OpponentLeftForfeit)]);
    assert_eq!(room.state(), GomokuState::Finished(Chessman::Black));
}
