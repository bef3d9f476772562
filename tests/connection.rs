use room_relay::{ConnState, Connection, OpenOutcome, RoomRegistry};

#[test]
fn pair_scenario_with_rejected_third() {
    let mut reg = RoomRegistry::new();
    let mut a = Connection::new(1);
    let mut b = Connection::new(2);
    let mut c = Connection::new(3);
    assert_eq!(a.on_open(&mut reg, "/alpha"), OpenOutcome::Stay);
    assert_eq!(b.on_open(&mut reg, "/alpha"), OpenOutcome::Stay);
    assert_eq!(c.on_open(&mut reg, "/alpha"), OpenOutcome::ClosePolicy);
    assert!(matches!(c.state, ConnState::Closed));
    assert_eq!(reg.members("alpha"), Some(vec![1, 2]));
    // A's message reaches B and not A.
    assert_eq!(a.on_message(&reg), vec![2]);
    // B leaves: A is to be closed and the room is gone.
    assert_eq!(b.on_close(&mut reg), vec![1]);
    assert_eq!(reg.members("alpha"), None);
    assert!(matches!(b.state, ConnState::Closed));
}

#[test]
fn messages_go_both_ways() {
    let mut reg = RoomRegistry::new();
    let mut a = Connection::new(10);
    let mut b = Connection::new(20);
    a.on_open(&mut reg, "/x");
    b.on_open(&mut reg, "/x");
    assert_eq!(a.on_message(&reg), vec![20]);
    assert_eq!(b.on_message(&reg), vec![10]);
}

#[test]
fn lone_member_forwards_to_no_one() {
    let mut reg = RoomRegistry::new();
    let mut a = Connection::new(1);
    a.on_open(&mut reg, "/solo");
    assert_eq!(a.on_message(&reg), Vec::<u64>::new());
}

#[test]
fn target_without_room_is_policy_closed() {
    let mut reg = RoomRegistry::new();
    let mut a = Connection::new(1);
    assert_eq!(a.on_open(&mut reg, "alpha"), OpenOutcome::ClosePolicy);
    assert!(matches!(a.state, ConnState::Closed));
    assert!(!reg.has_member(1));
    assert_eq!(reg.members("alpha"), None);
}

#[test]
fn joined_state_records_room_key() {
    let mut reg = RoomRegistry::new();
    let mut a = Connection::new(1);
    a.on_open(&mut reg, "/room/extra");
    match &a.state {
        ConnState::Joined(k) => assert_eq!(k, "room"),
        _ => panic!("connection did not join"),
    }
    assert_eq!(reg.members("room"), Some(vec![1]));
}

#[test]
fn departure_closes_peer_and_frees_key() {
    let mut reg = RoomRegistry::new();
    let mut a = Connection::new(1);
    let mut b = Connection::new(2);
    a.on_open(&mut reg, "/X");
    b.on_open(&mut reg, "/X");
    assert_eq!(a.on_close(&mut reg), vec![2]);
    assert_eq!(reg.members("X"), None);
    let mut c = Connection::new(3);
    assert_eq!(c.on_open(&mut reg, "/X"), OpenOutcome::Stay);
    assert_eq!(reg.members("X"), Some(vec![3]));
}

#[test]
fn rejected_connection_close_leaves_room_alone() {
    let mut reg = RoomRegistry::new();
    let mut a = Connection::new(1);
    let mut b = Connection::new(2);
    let mut c = Connection::new(3);
    a.on_open(&mut reg, "/X");
    b.on_open(&mut reg, "/X");
    c.on_open(&mut reg, "/X");
    assert_eq!(c.on_close(&mut reg), Vec::<u64>::new());
    assert_eq!(reg.members("X"), Some(vec![1, 2]));
}

#[test]
fn never_opened_connection_close_is_inert() {
    let mut reg = RoomRegistry::new();
    let mut a = Connection::new(1);
    a.on_open(&mut reg, "/X");
    let mut fresh = Connection::new(5);
    assert_eq!(fresh.on_close(&mut reg), Vec::<u64>::new());
    assert_eq!(reg.members("X"), Some(vec![1]));
}

#[test]
fn second_close_has_no_effect() {
    let mut reg = RoomRegistry::new();
    let mut a = Connection::new(1);
    let mut b = Connection::new(2);
    a.on_open(&mut reg, "/X");
    b.on_open(&mut reg, "/X");
    assert_eq!(a.on_close(&mut reg), vec![2]);
    let mut c = Connection::new(3);
    c.on_open(&mut reg, "/X");
    assert_eq!(a.on_close(&mut reg), Vec::<u64>::new());
    assert_eq!(reg.members("X"), Some(vec![3]));
}

#[test]
fn closed_connection_forwards_nothing() {
    let mut reg = RoomRegistry::new();
    let mut a = Connection::new(1);
    let mut b = Connection::new(2);
    a.on_open(&mut reg, "/X");
    b.on_open(&mut reg, "/X");
    a.on_close(&mut reg);
    assert_eq!(a.on_message(&reg), Vec::<u64>::new());
}
