//! Room-matching engine of a rendezvous service.
//!
//! Two clients that agree on a room identifier are paired: the first one
//! waits, the second one enters and learns the first one's profile, and the
//! waiting one is told of its new peer over a side channel.
pub mod model;

pub use model::{IpAddress, Room, RoomRequest, User};
pub mod registry;

pub use registry::{MatchError, MatchedRegistry, WaitingRegistry};
pub mod notify;

pub use notify::{decode_user, encode_user, Notification, NOTIFY_PORT};
pub mod service;

pub use service::{Matched, MatchingService};
