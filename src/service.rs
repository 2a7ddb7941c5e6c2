//! The matching engine: create, enter and cancel over the two registries.
//!
//! Each operation is a state transition. `create_step`, `enter_step` and
//! `cancel_step` say what it does to the registries and what it answers;
//! the executable operations are proved to follow them exactly.
use vstd::prelude::*;
use crate::model::{Room, RoomModel, RoomRequest, RoomRequestModel, User, UserModel};
use crate::notify::{encode_user, user_text, Notification, NOTIFY_PORT};
use crate::registry::{
    has_room, lemma_push_fresh, lemma_remove, position_of, unique_room_ids, MatchError,
    MatchedRegistry, WaitingRegistry,
};

verus! {

/// What the engine holds: the waiting requests and the matched rooms.
pub struct ServiceModel {
    pub waiting: Seq<RoomRequestModel>,
    pub matched: Seq<RoomModel>,
}

/// A request under a free room identifier starts to wait; otherwise
/// nothing changes and the answer is `DuplicateRoomId`.
pub open spec fn create_step(s: ServiceModel, req: RoomRequestModel) -> (ServiceModel, Result<(), MatchError>) {
    if has_room(s.waiting, req.room_id) {
        (s, Err(MatchError::DuplicateRoomId))
    } else {
        (ServiceModel { waiting: s.waiting.push(req), matched: s.matched }, Ok(()))
    }
}

/// An entering participant is paired with the request that waits under its
/// room identifier: that request leaves, the room is recorded, and the
/// entrant learns the waiting participant. With no such request the answer
/// is `NoSuchRoom`; with an entrant whose address cannot be sent to its peer
/// it is `MalformedAddress`. Either refusal changes nothing.
pub open spec fn enter_step(s: ServiceModel, req: RoomRequestModel) -> (ServiceModel, Result<UserModel, MatchError>) {
    if !has_room(s.waiting, req.room_id) {
        (s, Err(MatchError::NoSuchRoom))
    } else if !(req.user.ip is V4) {
        (s, Err(MatchError::MalformedAddress))
    } else {
        let i = position_of(s.waiting, req.room_id);
        let w = s.waiting[i];
        (
            ServiceModel {
                waiting: s.waiting.remove(i),
                matched: s.matched.push(RoomModel { id: req.room_id, first: w.user, second: req.user }),
            },
            Ok(w.user),
        )
    }
}

/// The waiting request at `position` is dropped; past the end the answer is
/// `OutOfRange` and nothing changes.
pub open spec fn cancel_step(s: ServiceModel, position: int) -> (ServiceModel, Result<(), MatchError>) {
    if 0 <= position < s.waiting.len() {
        (ServiceModel { waiting: s.waiting.remove(position), matched: s.matched }, Ok(()))
    } else {
        (s, Err(MatchError::OutOfRange))
    }
}

/// No operation ever lets two requests wait under one room identifier.
pub proof fn lemma_one_waiting_request_per_room(s: ServiceModel, req: RoomRequestModel, position: int)
    requires
        unique_room_ids(s.waiting),
    ensures
        unique_room_ids(create_step(s, req).0.waiting),
        unique_room_ids(enter_step(s, req).0.waiting),
        unique_room_ids(cancel_step(s, position).0.waiting),
{
    if !has_room(s.waiting, req.room_id) {
        lemma_push_fresh(s.waiting, req);
    } else {
        lemma_remove(s.waiting, position_of(s.waiting, req.room_id));
    }
    if 0 <= position < s.waiting.len() {
        lemma_remove(s.waiting, position);
    }
}

/// A second create under a waiting room identifier is refused, and the
/// first request stays the only one waiting under it.
pub proof fn lemma_second_create_refused(s: ServiceModel, r: u32, u1: UserModel, u2: UserModel)
    requires
        unique_room_ids(s.waiting),
        !has_room(s.waiting, r),
    ensures
        ({
            let a = RoomRequestModel { room_id: r, user: u1 };
            let b = RoomRequestModel { room_id: r, user: u2 };
            let s1 = create_step(s, a).0;
            &&& create_step(s, a).1 == Ok::<(), MatchError>(())
            &&& create_step(s1, b).1 == Err::<(), MatchError>(MatchError::DuplicateRoomId)
            &&& create_step(s1, b).0 == s1
            &&& forall|i: int|
                0 <= i < s1.waiting.len() && #[trigger] s1.waiting[i].room_id == r ==> s1.waiting[i]
                    == a
        }),
{
    let a = RoomRequestModel { room_id: r, user: u1 };
    lemma_push_fresh(s.waiting, a);
    let t = s.waiting.push(a);
    assert forall|i: int| 0 <= i < t.len() && #[trigger] t[i].room_id == r implies t[i] == a by {
        assert(t[i].room_id == t[s.waiting.len() as int].room_id);
    }
}

/// Create then enter under one room identifier pairs the two participants:
/// the entrant learns the creator, nothing waits under the identifier any
/// more, and exactly that room is recorded.
pub proof fn lemma_create_then_enter(s: ServiceModel, r: u32, u1: UserModel, u2: UserModel)
    requires
        unique_room_ids(s.waiting),
        !has_room(s.waiting, r),
        u2.ip is V4,
    ensures
        ({
            let s1 = create_step(s, RoomRequestModel { room_id: r, user: u1 }).0;
            let (s2, answer) = enter_step(s1, RoomRequestModel { room_id: r, user: u2 });
            &&& answer == Ok::<UserModel, MatchError>(u1)
            &&& !has_room(s2.waiting, r)
            &&& s2.waiting == s.waiting
            &&& s2.matched == s.matched.push(RoomModel { id: r, first: u1, second: u2 })
        }),
{
    let a = RoomRequestModel { room_id: r, user: u1 };
    lemma_push_fresh(s.waiting, a);
    assert(s.waiting.push(a).remove(s.waiting.len() as int) =~= s.waiting);
}

/// Entering a room that nobody created is refused and changes nothing.
pub proof fn lemma_enter_unknown_room(s: ServiceModel, req: RoomRequestModel)
    requires
        !has_room(s.waiting, req.room_id),
    ensures
        enter_step(s, req) == (s, Err::<UserModel, MatchError>(MatchError::NoSuchRoom)),
{
}

/// Once a room has been paired, its identifier can be created again.
pub proof fn lemma_room_free_after_match(
    s: ServiceModel,
    r: u32,
    u1: UserModel,
    u2: UserModel,
    u3: UserModel,
)
    requires
        unique_room_ids(s.waiting),
        !has_room(s.waiting, r),
        u2.ip is V4,
    ensures
        ({
            let s1 = create_step(s, RoomRequestModel { room_id: r, user: u1 }).0;
            let s2 = enter_step(s1, RoomRequestModel { room_id: r, user: u2 }).0;
            create_step(s2, RoomRequestModel { room_id: r, user: u3 }).1 == Ok::<(), MatchError>(())
        }),
{
    lemma_create_then_enter(s, r, u1, u2);
}

/// Of two participants entering a room that one request waits in, the
/// first one served is paired with the waiting participant and the other
/// finds no room.
pub proof fn lemma_one_of_two_entrants_paired(
    s: ServiceModel,
    r: u32,
    u1: UserModel,
    ux: UserModel,
    uy: UserModel,
)
    requires
        unique_room_ids(s.waiting),
        !has_room(s.waiting, r),
        ux.ip is V4,
    ensures
        ({
            let s1 = create_step(s, RoomRequestModel { room_id: r, user: u1 }).0;
            let (s2, x) = enter_step(s1, RoomRequestModel { room_id: r, user: ux });
            let (s3, y) = enter_step(s2, RoomRequestModel { room_id: r, user: uy });
            &&& x == Ok::<UserModel, MatchError>(u1)
            &&& y == Err::<UserModel, MatchError>(MatchError::NoSuchRoom)
            &&& s3 == s2
        }),
{
    lemma_create_then_enter(s, r, u1, ux);
}

/// Cancelling the request at `i` succeeds, and entering its room afterwards
/// is refused.
pub proof fn lemma_cancelled_room_gone(s: ServiceModel, i: int, u: UserModel)
    requires
        unique_room_ids(s.waiting),
        0 <= i < s.waiting.len(),
    ensures
        ({
            let (s1, c) = cancel_step(s, i);
            &&& c == Ok::<(), MatchError>(())
            &&& s1.waiting == s.waiting.remove(i)
            &&& enter_step(s1, RoomRequestModel { room_id: s.waiting[i].room_id, user: u }) == (
                s1,
                Err::<UserModel, MatchError>(MatchError::NoSuchRoom),
            )
        }),
{
    lemma_remove(s.waiting, i);
}

/// A successful entry: the waiting participant, and the message that tells
/// it of the entrant.
pub struct Matched {
    pub peer: User,
    pub notification: Notification,
}

/// The answer that `enter` gives, as `enter_step` states it.
pub open spec fn enter_answer(r: Result<Matched, MatchError>) -> Result<UserModel, MatchError> {
    match r {
        Ok(m) => Ok(m.peer@),
        Err(e) => Err(e),
    }
}

/// The engine. Callers that share it between threads hold it behind a lock;
/// every operation leaves it consistent, on every path.
pub struct MatchingService {
    waiting: WaitingRegistry,
    matched: MatchedRegistry,
}

impl View for MatchingService {
    type V = ServiceModel;

    closed spec fn view(&self) -> ServiceModel {
        ServiceModel { waiting: self.waiting@, matched: self.matched@ }
    }
}

impl MatchingService {
    pub open spec fn wf(&self) -> bool {
        unique_room_ids(self@.waiting)
    }

    pub fn new() -> (r: MatchingService)
        ensures
            r.wf(),
            r@.waiting == Seq::<RoomRequestModel>::empty(),
            r@.matched == Seq::<RoomModel>::empty(),
    {
        MatchingService { waiting: WaitingRegistry::new(), matched: MatchedRegistry::new() }
    }

    pub fn waiting(&self) -> (r: &WaitingRegistry)
        ensures
            r@ == self@.waiting,
    {
        &self.waiting
    }

    pub fn matched(&self) -> (r: &MatchedRegistry)
        ensures
            r@ == self@.matched,
    {
        &self.matched
    }

    /// Lets `request` wait for a peer.
    pub fn create(&mut self, request: RoomRequest) -> (r: Result<(), MatchError>)
        requires
            old(self).wf(),
        ensures
            final(self).wf(),
            create_step(old(self)@, request@) == (final(self)@, r),
    {
        self.waiting.register(request)
    }

    /// Pairs `request` with the request waiting under its room identifier.
    /// On success the caller delivers `notification` once it has let go of
    /// the engine; a failed delivery does not undo the pairing.
    pub fn enter(&mut self, request: RoomRequest) -> (r: Result<Matched, MatchError>)
        requires
            old(self).wf(),
        ensures
            final(self).wf(),
            enter_step(old(self)@, request@) == (final(self)@, enter_answer(r)),
            r matches Ok(m) ==> m.notification.target == m.peer.ip && m.notification.port
                == NOTIFY_PORT && m.notification.payload@ == user_text(request@.user),
    {
        let payload = match encode_user(&request.user) {
            Some(p) => p,
            None => {
                return match self.waiting.find(request.room_id) {
                    Some(_) => Err(MatchError::MalformedAddress),
                    None => Err(MatchError::NoSuchRoom),
                };
            },
        };
        match self.waiting.take_matching(request.room_id) {
            None => Err(MatchError::NoSuchRoom),
            Some(w) => {
                let peer = w.user.duplicate();
                let target = w.user.ip;
                let room = Room::new(request.room_id, w.user, request.user);
                self.matched.record(room);
                Ok(Matched { peer, notification: Notification { target, port: NOTIFY_PORT, payload } })
            },
        }
    }

    /// Drops the waiting request at `position`.
    pub fn cancel(&mut self, position: usize) -> (r: Result<(), MatchError>)
        requires
            old(self).wf(),
        ensures
            final(self).wf(),
            cancel_step(old(self)@, position as int) == (final(self)@, r),
    {
        self.waiting.cancel(position)
    }
}

} // verus!
