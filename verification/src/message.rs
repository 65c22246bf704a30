use vstd::prelude::*;

use crate::member::{Member, MembershipEvent};

verus! {

/// A message that a node receives from another.
#[derive(Debug)]
pub enum Message {
    /// A probe, with gossip piggybacked on it.
    Ping { src: Member, dest: Member, events: Vec<MembershipEvent> },
    /// A request to probe `target` on behalf of `src`.
    PingRequest { src: Member, dest: Member, target: Member },
    /// The answer to a probe, with gossip piggybacked on it.
    Ack { src: Member, dest: Member, events: Vec<MembershipEvent> },
}

} // verus!
