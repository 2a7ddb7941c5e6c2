//! Value types: participants, room requests and matched rooms.
use vstd::prelude::*;

verus! {

/// A participant's network address.
#[derive(Clone, Copy, Debug, PartialEq, Eq)]
pub enum IpAddress {
    V4(u8, u8, u8, u8),
    V6([u16; 8]),
}

/// A participant: a display name, the address at which it can be reached,
/// and a clock hint that the server carries without reading it.
///
/// The hint is kept as the decimal text the client reported.
#[derive(Clone, Debug, PartialEq)]
pub struct User {
    pub name: String,
    pub ip: IpAddress,
    pub delta_seconds: String,
}

/// Mathematical value of a [`User`].
pub struct UserModel {
    pub name: Seq<char>,
    pub ip: IpAddress,
    pub delta_seconds: Seq<char>,
}

impl View for User {
    type V = UserModel;

    open spec fn view(&self) -> UserModel {
        UserModel { name: self.name@, ip: self.ip, delta_seconds: self.delta_seconds@ }
    }
}

impl User {
    pub fn new(name: String, ip: IpAddress, delta_seconds: String) -> (r: User)
        ensures
            r@ == (UserModel { name: name@, ip, delta_seconds: delta_seconds@ }),
    {
        User { name, ip, delta_seconds }
    }

    /// A copy of this participant.
    pub fn duplicate(&self) -> (r: User)
        ensures
            r@ == self@,
    {
        User { name: self.name.clone(), ip: self.ip, delta_seconds: self.delta_seconds.clone() }
    }
}

/// A participant's wish to meet another one under `room_id`.
#[derive(Clone, Debug, PartialEq)]
pub struct RoomRequest {
    pub room_id: u32,
    pub user: User,
}

pub struct RoomRequestModel {
    pub room_id: u32,
    pub user: UserModel,
}

impl View for RoomRequest {
    type V = RoomRequestModel;

    open spec fn view(&self) -> RoomRequestModel {
        RoomRequestModel { room_id: self.room_id, user: self.user@ }
    }
}

impl RoomRequest {
    pub fn new(room_id: u32, user: User) -> (r: RoomRequest)
        ensures
            r@ == (RoomRequestModel { room_id, user: user@ }),
    {
        RoomRequest { room_id, user }
    }
}

/// A confirmed pairing: `first` waited, `second` entered.
#[derive(Clone, Debug, PartialEq)]
pub struct Room {
    pub id: u32,
    pub first: User,
    pub second: User,
}

pub struct RoomModel {
    pub id: u32,
    pub first: UserModel,
    pub second: UserModel,
}

impl View for Room {
    type V = RoomModel;

    open spec fn view(&self) -> RoomModel {
        RoomModel { id: self.id, first: self.first@, second: self.second@ }
    }
}

impl Room {
    pub fn new(id: u32, first: User, second: User) -> (r: Room)
        ensures
            r@ == (RoomModel { id, first: first@, second: second@ }),
    {
        Room { id, first, second }
    }
}

} // verus!
