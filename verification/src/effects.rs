use vstd::prelude::*;

use crate::member::{Member, MembershipEvent};

verus! {

/// An action that the protocol asks its caller to carry out.
#[derive(Debug)]
pub enum Effect {
    /// Send a probe to `dest`, with gossip piggybacked on it.
    Ping { src: Member, dest: Member, events: Vec<MembershipEvent> },
    /// Ask `dest` to probe `target` on this node's behalf.
    PingRequest { src: Member, dest: Member, target: Member },
    /// Acknowledge a probe, with gossip piggybacked on it.
    Ack { src: Member, dest: Member, events: Vec<MembershipEvent> },
    /// Call `start_period` again after `delay` milliseconds.
    ScheduleNextPeriod { delay: i64 },
    /// Call `indirect_probe` after `delay` milliseconds.
    ScheduleIndirectProbe { delay: i64, target: Member },
    /// Call `confirm_suspicion` for `target` after `delay` milliseconds.
    ScheduleSuspicionTimeout { delay: i64, target: Member },
}

/// A store of the effects waiting to be carried out. The protocol pushes each
/// effect at the back; a store may hand them out in another order (by priority,
/// say), but hands out each pending effect once. A first-in first-out store
/// says so with `pops_in_order`.
pub trait EffectStore: Sized {
    /// The effects waiting in the store, in the order they were pushed.
    spec fn pending(&self) -> Seq<Effect>;

    /// Whether `pop` always hands out the effect pushed first.
    spec fn pops_in_order() -> bool;

    /// Hands out one pending effect, or `None` where none is pending.
    fn pop(&mut self) -> (r: Option<Effect>)
        ensures
            old(self).pending().len() == 0 ==> r is None
                && final(self).pending() == old(self).pending(),
            old(self).pending().len() > 0 ==> exists|i: int|
                0 <= i < old(self).pending().len() && r == Some(old(self).pending()[i])
                    && final(self).pending() == old(self).pending().remove(i),
            Self::pops_in_order() && old(self).pending().len() > 0 ==> r == Some(
                old(self).pending()[0],
            ) && final(self).pending() == old(self).pending().drop_first(),
    ;

    fn push(&mut self, effect: Effect)
        ensures
            final(self).pending() == old(self).pending().push(effect),
    ;
}

} // verus!
