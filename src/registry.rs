//! The pending-request registry and the record of matched rooms.
use vstd::prelude::*;
use crate::model::{Room, RoomModel, RoomRequest, RoomRequestModel};

verus! {

/// Why a registry or service operation was refused.
#[derive(Clone, Copy, Debug, PartialEq, Eq)]
pub enum MatchError {
    /// A request is already waiting under that room identifier.
    DuplicateRoomId,
    /// No request is waiting under that room identifier.
    NoSuchRoom,
    /// The position lies past the end of the waiting requests.
    OutOfRange,
    /// The entering participant's address cannot be sent as four octets.
    MalformedAddress,
}

/// Some waiting request has room identifier `id`.
pub open spec fn has_room(s: Seq<RoomRequestModel>, id: u32) -> bool {
    exists|i: int| 0 <= i < s.len() && #[trigger] s[i].room_id == id
}

/// No two waiting requests share a room identifier.
pub open spec fn unique_room_ids(s: Seq<RoomRequestModel>) -> bool {
    forall|i: int, j: int|
        0 <= i < s.len() && 0 <= j < s.len() && #[trigger] s[i].room_id == #[trigger] s[j].room_id
            ==> i == j
}

/// Where the request with room identifier `id` stands (meaningful when
/// `has_room(s, id)`).
pub open spec fn position_of(s: Seq<RoomRequestModel>, id: u32) -> int {
    choose|i: int| 0 <= i < s.len() && #[trigger] s[i].room_id == id
}

/// Appending a request under a free room identifier keeps identifiers
/// unique, and the new request stands last.
pub proof fn lemma_push_fresh(s: Seq<RoomRequestModel>, req: RoomRequestModel)
    requires
        unique_room_ids(s),
        !has_room(s, req.room_id),
    ensures
        unique_room_ids(s.push(req)),
        has_room(s.push(req), req.room_id),
        position_of(s.push(req), req.room_id) == s.len(),
{
    let t = s.push(req);
    assert forall|i: int, j: int|
        0 <= i < t.len() && 0 <= j < t.len() && #[trigger] t[i].room_id == #[trigger] t[j].room_id
            implies i == j by {
        if i < s.len() && j == s.len() {
            assert(s[i].room_id == req.room_id);
        } else if j < s.len() && i == s.len() {
            assert(s[j].room_id == req.room_id);
        }
    }
    assert(t[s.len() as int].room_id == req.room_id);
    let p = position_of(t, req.room_id);
    assert(t[p].room_id == t[s.len() as int].room_id);
}

/// Removing the request at `i` keeps identifiers unique and leaves no
/// request under its room identifier.
pub proof fn lemma_remove(s: Seq<RoomRequestModel>, i: int)
    requires
        unique_room_ids(s),
        0 <= i < s.len(),
    ensures
        unique_room_ids(s.remove(i)),
        !has_room(s.remove(i), s[i].room_id),
{
    let t = s.remove(i);
    assert forall|a: int, b: int|
        0 <= a < t.len() && 0 <= b < t.len() && #[trigger] t[a].room_id == #[trigger] t[b].room_id
            implies a == b by {
        let a0 = if a < i { a } else { a + 1 };
        let b0 = if b < i { b } else { b + 1 };
        assert(t[a] == s[a0]);
        assert(t[b] == s[b0]);
    }
    if has_room(t, s[i].room_id) {
        let k = choose|k: int| 0 <= k < t.len() && #[trigger] t[k].room_id == s[i].room_id;
        let k0 = if k < i { k } else { k + 1 };
        assert(t[k] == s[k0]);
        assert(s[k0].room_id == s[i].room_id);
    }
}

/// The requests waiting for a peer, in order of arrival.
pub struct WaitingRegistry {
    entries: Vec<RoomRequest>,
}

impl View for WaitingRegistry {
    type V = Seq<RoomRequestModel>;

    closed spec fn view(&self) -> Seq<RoomRequestModel> {
        self.entries@.map_values(|r: RoomRequest| r@)
    }
}

impl WaitingRegistry {
    pub open spec fn wf(&self) -> bool {
        unique_room_ids(self@)
    }

    pub fn new() -> (r: WaitingRegistry)
        ensures
            r.wf(),
            r@ == Seq::<RoomRequestModel>::empty(),
    {
        let r = WaitingRegistry { entries: Vec::new() };
        assert(r@ =~= Seq::<RoomRequestModel>::empty());
        r
    }

    pub fn len(&self) -> (r: usize)
        ensures
            r == self@.len(),
    {
        self.entries.len()
    }

    /// The request at `position`, if there is one.
    pub fn get(&self, position: usize) -> (r: Option<&RoomRequest>)
        ensures
            match r {
                Some(req) => position < self@.len() && req@ == self@[position as int],
                None => position >= self@.len(),
            },
    {
        if position < self.entries.len() {
            Some(&self.entries[position])
        } else {
            None
        }
    }

    /// Where the request for `room_id` stands, if one waits.
    pub fn find(&self, room_id: u32) -> (r: Option<usize>)
        requires
            self.wf(),
        ensures
            match r {
                Some(i) => has_room(self@, room_id) && i == position_of(self@, room_id),
                None => !has_room(self@, room_id),
            },
    {
        let n = self.entries.len();
        let mut i: usize = 0;
        while i < n
            invariant
                self.wf(),
                n == self@.len(),
                0 <= i <= n,
                forall|k: int| 0 <= k < i ==> #[trigger] self@[k].room_id != room_id,
            decreases n - i,
        {
            if self.entries[i].room_id == room_id {
                assert(self@[i as int].room_id == room_id);
                assert(has_room(self@, room_id));
                let ghost p = position_of(self@, room_id);
                assert(self@[p].room_id == self@[i as int].room_id);
                return Some(i);
            }
            i += 1;
        }
        None
    }

    /// Adds `request` unless a request with its room identifier already waits.
    pub fn register(&mut self, request: RoomRequest) -> (r: Result<(), MatchError>)
        requires
            old(self).wf(),
        ensures
            final(self).wf(),
            r == if has_room(old(self)@, request.room_id) {
                Err(MatchError::DuplicateRoomId)
            } else {
                Ok(())
            },
            final(self)@ == if has_room(old(self)@, request.room_id) {
                old(self)@
            } else {
                old(self)@.push(request@)
            },
    {
        match self.find(request.room_id) {
            Some(_) => Err(MatchError::DuplicateRoomId),
            None => {
                let ghost before = self@;
                self.entries.push(request);
                assert(self@ =~= before.push(request@));
                proof {
                    lemma_push_fresh(before, request@);
                }
                Ok(())
            },
        }
    }

    /// Removes and returns the request waiting under `room_id`, if any.
    pub fn take_matching(&mut self, room_id: u32) -> (r: Option<RoomRequest>)
        requires
            old(self).wf(),
        ensures
            final(self).wf(),
            match r {
                Some(req) => has_room(old(self)@, room_id) && req@ == old(self)@[position_of(
                    old(self)@,
                    room_id,
                )] && final(self)@ == old(self)@.remove(position_of(old(self)@, room_id)),
                None => !has_room(old(self)@, room_id) && final(self)@ == old(self)@,
            },
    {
        match self.find(room_id) {
            Some(i) => Some(self.remove_at(i)),
            None => None,
        }
    }

    /// Removes the request at `position`.
    pub fn cancel(&mut self, position: usize) -> (r: Result<(), MatchError>)
        requires
            old(self).wf(),
        ensures
            final(self).wf(),
            r == if position < old(self)@.len() {
                Ok(())
            } else {
                Err(MatchError::OutOfRange)
            },
            final(self)@ == if position < old(self)@.len() {
                old(self)@.remove(position as int)
            } else {
                old(self)@
            },
    {
        if position < self.entries.len() {
            let _ = self.remove_at(position);
            Ok(())
        } else {
            Err(MatchError::OutOfRange)
        }
    }

    fn remove_at(&mut self, position: usize) -> (r: RoomRequest)
        requires
            old(self).wf(),
            position < old(self)@.len(),
        ensures
            final(self).wf(),
            r@ == old(self)@[position as int],
            final(self)@ == old(self)@.remove(position as int),
    {
        let ghost before = self@;
        let r = self.entries.remove(position);
        assert(self@ =~= before.remove(position as int));
        proof {
            lemma_remove(before, position as int);
        }
        r
    }
}

/// The rooms paired so far, in order of pairing. Entries are only appended.
pub struct MatchedRegistry {
    rooms: Vec<Room>,
}

impl View for MatchedRegistry {
    type V = Seq<RoomModel>;

    closed spec fn view(&self) -> Seq<RoomModel> {
        self.rooms@.map_values(|r: Room| r@)
    }
}

impl MatchedRegistry {
    pub fn new() -> (r: MatchedRegistry)
        ensures
            r@ == Seq::<RoomModel>::empty(),
    {
        let r = MatchedRegistry { rooms: Vec::new() };
        assert(r@ =~= Seq::<RoomModel>::empty());
        r
    }

    pub fn len(&self) -> (r: usize)
        ensures
            r == self@.len(),
    {
        self.rooms.len()
    }

    /// The room at `position`, if there is one.
    pub fn get(&self, position: usize) -> (r: Option<&Room>)
        ensures
            match r {
                Some(room) => position < self@.len() && room@ == self@[position as int],
                None => position >= self@.len(),
            },
    {
        if position < self.rooms.len() {
            Some(&self.rooms[position])
        } else {
            None
        }
    }

    /// Appends `room`.
    pub fn record(&mut self, room: Room)
        ensures
            final(self)@ == old(self)@.push(room@),
    {
        let ghost before = self@;
        self.rooms.push(room);
        assert(self@ =~= before.push(room@));
    }
}

} // verus!
