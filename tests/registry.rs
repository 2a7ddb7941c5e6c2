use rendezvous::{IpAddress, MatchError, MatchedRegistry, Room, RoomRequest, User, WaitingRegistry};

fn req(room_id: u32, name: &str) -> RoomRequest {
    RoomRequest::new(room_id, User::new(name.to_string(), IpAddress::V4(1, 2, 3, 4), "0".to_string()))
}

#[test]
fn register_refuses_duplicate_ids() {
    let mut w = WaitingRegistry::new();
    assert_eq!(w.register(req(1, "a")), Ok(()));
    assert_eq!(w.register(req(2, "b")), Ok(()));
    assert_eq!(w.register(req(1, "c")), Err(MatchError::DuplicateRoomId));
    assert_eq!(w.len(), 2);
    assert_eq!(w.get(0), Some(&req(1, "a")));
    assert_eq!(w.get(2), None);
}

#[test]
fn take_matching_removes_exactly_that_entry() {
    let mut w = WaitingRegistry::new();
    w.register(req(1, "a")).unwrap();
    w.register(req(2, "b")).unwrap();
    w.register(req(3, "c")).unwrap();
    assert_eq!(w.find(2), Some(1));
    assert_eq!(w.take_matching(2), Some(req(2, "b")));
    assert_eq!(w.take_matching(2), None);
    assert_eq!(w.len(), 2);
    assert_eq!(w.get(1), Some(&req(3, "c")));
    assert_eq!(w.find(2), None);
}

#[test]
fn cancel_by_position() {
    let mut w = WaitingRegistry::new();
    w.register(req(1, "a")).unwrap();
    w.register(req(2, "b")).unwrap();
    assert_eq!(w.cancel(2), Err(MatchError::OutOfRange));
    assert_eq!(w.cancel(0), Ok(()));
    assert_eq!(w.get(0), Some(&req(2, "b")));
    assert_eq!(w.len(), 1);
}

#[test]
fn matched_registry_appends_in_order() {
    let mut m = MatchedRegistry::new();
    assert_eq!(m.len(), 0);
    let u = |n: &str| User::new(n.to_string(), IpAddress::V4(9, 9, 9, 9), "0".to_string());
    m.record(Room::new(1, u("a"), u("b")));
    m.record(Room::new(1, u("c"), u("d")));
    assert_eq!(m.len(), 2);
    assert_eq!(m.get(0), Some(&Room::new(1, u("a"), u("b"))));
    assert_eq!(m.get(1), Some(&Room::new(1, u("c"), u("d"))));
    assert_eq!(m.get(2), None);
}
