use gomoku::{ChatMsg, Event, GomokuMsg, GomokuState, Hall, HallMsg};

fn hall_with(players: &[(usize, &str)]) -> Hall {
    let mut hall = Hall::new();
    for (id, name) in players {
        assert!(hall.register(*id, name.to_string()));
    }
    hall
}

#[test]
fn two_players_form_exactly_one_room() {
    let mut hall = hall_with(&[(1, "ann"), (2, "bob")]);
    assert_eq!(hall.start_gomoku(1), vec![(1, Event::Waiting)]);
    assert!(hall.is_queued(1));
    assert_eq!(
        hall.start_gomoku(2),
        vec![(1, Event::MatchFound("bob".to_string())), (2, Event::MatchFound("ann".to_string()))]
    );
    assert_eq!(hall.room_count(), 1);
    let rid = hall.room_of(1).unwrap();
    assert_eq!(hall.room_of(2), Some(rid));
    let room = hall.room(rid).unwrap();
    assert_eq!(room.black(), 1);
    assert_eq!(room.white(), 2);
    assert_eq!(room.state(), GomokuState::AwaitingReady);
    assert!(!hall.is_queued(1));
    assert!(!hall.is_queued(2));
}

#[test]
fn cancel_then_start_never_matches_oneself() {
    let mut hall = hall_with(&[(1, "ann"), (2, "bob")]);
    assert_eq!(hall.start_gomoku(1), vec![(1, Event::Waiting)]);
    assert_eq!(hall.cancel_gomoku(1), vec![(1, Event::Canceled)]);
    assert!(!hall.is_queued(1));
    assert_eq!(hall.start_gomoku(1), vec![(1, Event::Waiting)]);
    assert_eq!(hall.room_of(1), None);
    assert_eq!(hall.room_count(), 0);
    assert!(hall.is_queued(1));
    hall.start_gomoku(2);
    let rid = hall.room_of(2).unwrap();
    assert_eq!(hall.room_of(1), Some(rid));
    assert_eq!(hall.room_count(), 1);
}

#[test]
fn canceled_entries_are_skipped() {
    let mut hall = hall_with(&[(1, "ann"), (2, "bob"), (3, "cy")]);
    hall.start_gomoku(1);
    hall.start_gomoku(2);
    // 1 and 2 were matched; 3 queues behind no one.
    assert_eq!(hall.start_gomoku(3), vec![(3, Event::Waiting)]);
    hall.cancel_gomoku(3);
    let mut hall2 = hall_with(&[(4, "dee"), (5, "eve")]);
    hall2.start_gomoku(4);
    hall2.cancel_gomoku(4);
    assert_eq!(hall2.start_gomoku(5), vec![(5, Event::Waiting)]);
    assert_eq!(hall2.room_of(5), None);
    assert!(hall2.is_queued(5));
}

#[test]
fn refusals_for_queued_seated_and_unknown_players() {
    let mut hall = hall_with(&[(1, "ann"), (2, "bob"), (3, "cy")]);
    hall.start_gomoku(1);
    assert_eq!(hall.start_gomoku(1), vec![(1, Event::AlreadyQueued)]);
    hall.start_gomoku(2);
    assert_eq!(hall.start_gomoku(2), vec![(2, Event::AlreadyPlaying)]);
    assert_eq!(hall.start_gomoku(1), vec![(1, Event::AlreadyPlaying)]);
    assert_eq!(hall.start_gomoku(9), vec![(9, Event::UnknownPlayer)]);
    assert_eq!(hall.cancel_gomoku(9), vec![(9, Event::UnknownPlayer)]);
    assert_eq!(hall.room_count(), 1);
}

#[test]
fn both_quits_remove_the_room() {
    let mut hall = hall_with(&[(1, "ann"), (2, "bob")]);
    hall.start_gomoku(1);
    hall.start_gomoku(2);
    let rid = hall.room_of(1).unwrap();
    assert_eq!(hall.route(GomokuMsg::Quit(1)), vec![(2, Event::OpponentLeftForfeit)]);
    assert_eq!(hall.room_of(1), None);
    assert_eq!(hall.room(rid).unwrap().state(), GomokuState::Finished(gomoku::Chessman::White));
    assert_eq!(hall.route(GomokuMsg::Quit(2)), vec![]);
    assert_eq!(hall.room_of(2), None);
    assert!(hall.room(rid).is_none());
    assert_eq!(hall.room_count(), 0);
    // Both may ask for a new match.
    assert_eq!(hall.start_gomoku(2), vec![(2, Event::Waiting)]);
}

#[test]
fn quit_during_play_forfeits() {
    let mut hall = hall_with(&[(1, "ann"), (2, "bob")]);
    hall.start_gomoku(1);
    hall.start_gomoku(2);
    hall.route(GomokuMsg::Ready(1));
    assert_eq!(
        hall.route(GomokuMsg::Ready(2)),
        vec![(1, Event::MatchStarted), (2, Event::MatchStarted)]
    );
    let rid = hall.room_of(1).unwrap();
    assert_eq!(hall.room(rid).unwrap().state(), GomokuState::InProgress);
    assert_eq!(hall.route(GomokuMsg::Quit(2)), vec![(1, Event::OpponentLeftForfeit)]);
    assert_eq!(hall.room(rid).unwrap().state(), GomokuState::Finished(gomoku::Chessman::Black));
}

#[test]
fn commands_without_a_room_are_dropped() {
    let mut hall = hall_with(&[(1, "ann")]);
    assert_eq!(hall.route(GomokuMsg::Put(1, 3, 3)), vec![]);
    assert_eq!(hall.route(GomokuMsg::Ready(7)), vec![]);
}

#[test]
fn disconnect_quits_the_seat_and_ends_the_session() {
    let mut hall = hall_with(&[(1, "ann"), (2, "bob"), (3, "cy")]);
    hall.start_gomoku(1);
    hall.start_gomoku(2);
    hall.start_gomoku(3);
    assert_eq!(hall.disconnect(1), vec![(2, Event::OpponentLeftForfeit)]);
    assert!(!hall.is_connected(1));
    assert_eq!(hall.room_of(1), None);
    assert_eq!(hall.disconnect(3), vec![]);
    assert!(!hall.is_queued(3));
    assert!(!hall.is_connected(3));
}

#[test]
fn register_refuses_a_live_id() {
    let mut hall = hall_with(&[(1, "ann")]);
    assert!(!hall.register(1, "other".to_string()));
    assert!(hall.is_connected(1));
}

#[test]
fn connect_gives_a_fresh_id() {
    let mut hall = Hall::new();
    let a = hall.connect("ann".to_string());
    let b = hall.connect("bob".to_string());
    assert_ne!(a, b);
    assert!(hall.is_connected(a));
    assert!(hall.is_connected(b));
}

#[test]
fn chat_reaches_every_session() {
    let mut hall = hall_with(&[(1, "ann"), (2, "bob")]);
    let msg = ChatMsg { content: "hello".to_string(), name: "ann".to_string() };
    let mut out = hall.handle(HallMsg::Chat(msg));
    out.sort_by_key(|n| n.0);
    assert_eq!(
        out,
        vec![(1, Event::Chat("ann: hello".to_string())), (2, Event::Chat("ann: hello".to_string()))]
    );
    assert_eq!(gomoku::hall::chat_line(&ChatMsg { content: "x".to_string(), name: "".to_string() }), ": x");
}

#[test]
fn handle_dispatches_hall_commands() {
    let mut hall = hall_with(&[(1, "ann"), (2, "bob")]);
    assert_eq!(hall.handle(HallMsg::StartGomoku(1)), vec![(1, Event::Waiting)]);
    assert_eq!(hall.handle(HallMsg::CancelGomoku(1)), vec![(1, Event::Canceled)]);
    assert_eq!(hall.handle(HallMsg::StartGomoku(2)), vec![(2, Event::Waiting)]);
    assert_eq!(hall.room_count(), 0);
}

#[test]
fn chat_after_one_connect_reaches_one_session() {
    let mut hall = Hall::new();
    let id = hall.connect("x".to_string());
    let msg = ChatMsg { content: "hi".to_string(), name: "alice".to_string() };
    assert_eq!(hall.handle(HallMsg::Chat(msg)), vec![(id, Event::Chat("alice: hi".to_string()))]);
}

#[test]
fn many_connects_give_distinct_ids() {
    let mut hall = Hall::new();
    let mut ids = Vec::new();
    for k in 0..50 {
        let id = hall.connect(format!("p{}", k));
        assert!(!ids.contains(&id));
        ids.push(id);
    }
    assert!(ids.iter().all(|id| hall.is_connected(*id)));
}
