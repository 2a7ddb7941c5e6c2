use rendezvous::{IpAddress, MatchError, MatchingService, Room, RoomRequest, User, NOTIFY_PORT};

fn user(name: &str, ip: IpAddress, delta: &str) -> User {
    User::new(name.to_string(), ip, delta.to_string())
}

fn alice() -> User {
    user("alice", IpAddress::V4(192, 168, 0, 10), "0.25")
}

fn bob() -> User {
    user("bob", IpAddress::V4(10, 0, 0, 7), "-1.5")
}

fn carol() -> User {
    user("carol", IpAddress::V4(172, 16, 5, 200), "3")
}

fn request(room_id: u32, u: User) -> RoomRequest {
    RoomRequest::new(room_id, u)
}

#[test]
fn create_then_enter_pairs_the_two() {
    let mut s = MatchingService::new();
    assert_eq!(s.create(request(7, alice())), Ok(()));
    assert_eq!(s.waiting().len(), 1);
    let m = s.enter(request(7, bob())).unwrap();
    assert_eq!(m.peer, alice());
    assert_eq!(s.waiting().len(), 0);
    assert_eq!(s.waiting().find(7), None);
    assert_eq!(s.matched().len(), 1);
    assert_eq!(s.matched().get(0), Some(&Room::new(7, alice(), bob())));
}

#[test]
fn enter_tells_the_waiting_peer_about_the_entrant() {
    let mut s = MatchingService::new();
    s.create(request(7, alice())).unwrap();
    let m = s.enter(request(7, bob())).unwrap();
    assert_eq!(m.notification.target, IpAddress::V4(192, 168, 0, 10));
    assert_eq!(m.notification.port, 8888);
    assert_eq!(NOTIFY_PORT, 8888);
    assert_eq!(
        m.notification.payload,
        "\n{\n    \"name\" : \"bob\",\n    \"ip\" : [10, 0, 0, 7],\n    \"delta_seconds\" : -1.5 \n}"
    );
}

#[test]
fn second_create_on_same_room_is_refused() {
    let mut s = MatchingService::new();
    assert_eq!(s.create(request(3, alice())), Ok(()));
    assert_eq!(s.create(request(3, bob())), Err(MatchError::DuplicateRoomId));
    assert_eq!(s.waiting().len(), 1);
    assert_eq!(s.waiting().get(0), Some(&request(3, alice())));
}

#[test]
fn enter_without_create_is_refused() {
    let mut s = MatchingService::new();
    s.create(request(1, alice())).unwrap();
    assert!(matches!(s.enter(request(2, bob())), Err(MatchError::NoSuchRoom)));
    assert_eq!(s.waiting().len(), 1);
    assert_eq!(s.waiting().get(0), Some(&request(1, alice())));
    assert_eq!(s.matched().len(), 0);
}

#[test]
fn room_id_is_free_again_after_match() {
    let mut s = MatchingService::new();
    s.create(request(5, alice())).unwrap();
    s.enter(request(5, bob())).unwrap();
    assert_eq!(s.create(request(5, carol())), Ok(()));
    assert_eq!(s.waiting().get(0), Some(&request(5, carol())));
}

#[test]
fn only_one_of_two_entrants_gets_the_waiting_user() {
    let mut s = MatchingService::new();
    s.create(request(9, alice())).unwrap();
    let first = s.enter(request(9, bob()));
    let second = s.enter(request(9, carol()));
    assert_eq!(first.unwrap().peer, alice());
    assert!(matches!(second, Err(MatchError::NoSuchRoom)));
    assert_eq!(s.matched().len(), 1);
}

#[test]
fn cancel_removes_entry_and_room_is_gone() {
    let mut s = MatchingService::new();
    s.create(request(1, alice())).unwrap();
    s.create(request(2, bob())).unwrap();
    s.create(request(3, carol())).unwrap();
    assert_eq!(s.cancel(1), Ok(()));
    assert_eq!(s.waiting().len(), 2);
    assert_eq!(s.waiting().get(0), Some(&request(1, alice())));
    assert_eq!(s.waiting().get(1), Some(&request(3, carol())));
    assert!(matches!(s.enter(request(2, carol())), Err(MatchError::NoSuchRoom)));
}

#[test]
fn cancel_out_of_range_is_refused() {
    let mut s = MatchingService::new();
    assert_eq!(s.cancel(0), Err(MatchError::OutOfRange));
    s.create(request(1, alice())).unwrap();
    assert_eq!(s.cancel(1), Err(MatchError::OutOfRange));
    assert_eq!(s.waiting().len(), 1);
}

#[test]
fn entrant_with_ipv6_address_is_refused_without_change() {
    let mut s = MatchingService::new();
    s.create(request(4, alice())).unwrap();
    let v6 = user("dave", IpAddress::V6([0, 0, 0, 0, 0, 0, 0, 1]), "0");
    assert!(matches!(s.enter(request(4, v6.clone())), Err(MatchError::MalformedAddress)));
    assert_eq!(s.waiting().len(), 1);
    assert_eq!(s.matched().len(), 0);
    assert!(matches!(s.enter(request(5, v6)), Err(MatchError::NoSuchRoom)));
}

#[test]
fn waiting_user_with_ipv6_address_can_be_matched() {
    let mut s = MatchingService::new();
    let v6 = user("erin", IpAddress::V6([0xfe80, 0, 0, 0, 0, 0, 0, 2]), "1.0");
    s.create(request(6, v6.clone())).unwrap();
    let m = s.enter(request(6, bob())).unwrap();
    assert_eq!(m.peer, v6);
    assert_eq!(m.notification.target, IpAddress::V6([0xfe80, 0, 0, 0, 0, 0, 0, 2]));
}

#[test]
fn room_ids_stay_unique_over_many_operations() {
    let mut s = MatchingService::new();
    for id in 0..5u32 {
        assert_eq!(s.create(request(id, alice())), Ok(()));
    }
    for id in 0..5u32 {
        assert_eq!(s.create(request(id, bob())), Err(MatchError::DuplicateRoomId));
    }
    s.enter(request(2, carol())).unwrap();
    s.cancel(0).unwrap();
    assert_eq!(s.create(request(2, bob())), Ok(()));
    assert_eq!(s.create(request(0, bob())), Ok(()));
    let n = s.waiting().len();
    for i in 0..n {
        for j in 0..n {
            let a = s.waiting().get(i).unwrap().room_id;
            let b = s.waiting().get(j).unwrap().room_id;
            assert!(i == j || a != b);
        }
    }
}
