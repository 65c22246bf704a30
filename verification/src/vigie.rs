use vstd::prelude::*;

use crate::dissemination::{
    all_infectious, is_grab, lemma_put_event, min_nat, put_event, unique_members,
    drop_request, event_entries, event_for, event_index, lemma_event_entries, lemma_event_index,
    put_request, requester_of, DisseminationBuffer, PendingRequests,
};
use crate::message::Message;
use crate::error::VigieError;
use crate::effects::{Effect, EffectStore};
use crate::member::{Member, MemberStatus, MembershipEntry, MembershipEvent};
use crate::member_store::{
    first_index, has_member, is_first_index, lemma_first_index,
    lemma_first_index_unique, lemma_first_index_push,
    lemma_first_index_update, lemma_same_multiset_contains, lemma_same_multiset_has_member, others,
    MemberStore,
};
use crate::model::{
    floor_log2, infection_count, lemma_floor_log2_le, merged, refutation, refuted_incarnation,
    resurrected, seed_entry, seeded, supersedes, updated,
};

verus! {

/// What a node running the protocol holds, as the contracts speak of it.
pub struct VigieState {
    /// The membership table, in the member store's order.
    pub members: Seq<MembershipEntry>,
    /// How far the member store's round-robin walk has come.
    pub cursor: nat,
    /// The effects not yet handed to the caller, next first.
    pub effects: Seq<Effect>,
    /// The events still to be gossiped, at most one per member.
    pub buffer: Seq<MembershipEvent>,
    /// Indirect probes in progress: for each target, the member that asked for it.
    pub pending: Map<Member, Member>,
    pub seeds: Seq<Member>,
    pub id: Member,
    pub k: u16,
    pub period: i64,
    pub timeout: i64,
    pub suspicion_timeout: i64,
    pub period_start: i64,
    /// The member probed in the current period, until it acknowledges.
    pub awaiting: Option<Member>,
    pub event_slots: u64,
}

impl VigieState {
    /// What every operation keeps: the node knows itself, the buffer holds at
    /// most one event per member and none that is spent, and the member
    /// awaited is in the table.
    pub open spec fn wf(self) -> bool {
        &&& has_member(self.members, self.id)
        &&& unique_members(self.buffer)
        &&& all_infectious(self.buffer)
        &&& (self.awaiting matches Some(w) ==> has_member(self.members, w))
    }
}

/// A node of the SWIM membership protocol. It performs no I/O: it takes in
/// messages and timer expiries, and queues the effects its caller must carry out.
#[derive(Debug)]
pub struct Vigie<M, E> where M: MemberStore, E: EffectStore {
    pub(crate) member_store: M,
    pub(crate) effect_store: E,
    pub(crate) dissemination_buffer: DisseminationBuffer,
    pub(crate) pending_ping_req: PendingRequests,
    pub(crate) seeds: Vec<Member>,
    pub(crate) id: Member,
    pub(crate) k: u16,
    pub(crate) period: i64,
    pub(crate) timeout: i64,
    pub(crate) suspicion_timeout: i64,
    pub(crate) period_start_timestamp: i64,
    pub(crate) ack_member_await: Option<Member>,
    pub(crate) event_slots: u64,
}

impl<M, E> View for Vigie<M, E> where M: MemberStore, E: EffectStore {
    type V = VigieState;

    closed spec fn view(&self) -> VigieState {
        VigieState {
            members: self.member_store.entries(),
            cursor: self.member_store.cursor(),
            effects: self.effect_store.pending(),
            buffer: self.dissemination_buffer@,
            pending: self.pending_ping_req@,
            seeds: self.seeds@,
            id: self.id,
            k: self.k,
            period: self.period,
            timeout: self.timeout,
            suspicion_timeout: self.suspicion_timeout,
            period_start: self.period_start_timestamp,
            awaiting: self.ack_member_await,
            event_slots: self.event_slots,
        }
    }
}

impl<M, E> Vigie<M, E> where M: MemberStore, E: EffectStore {
    /// How the state is made of the fields, for the other modules of the crate.
    pub(crate) proof fn lemma_view(&self)
        ensures
            self@ == (VigieState {
                members: self.member_store.entries(),
                cursor: self.member_store.cursor(),
                effects: self.effect_store.pending(),
                buffer: self.dissemination_buffer@,
                pending: self.pending_ping_req@,
                seeds: self.seeds@,
                id: self.id,
                k: self.k,
                period: self.period,
                timeout: self.timeout,
                suspicion_timeout: self.suspicion_timeout,
                period_start: self.period_start_timestamp,
                awaiting: self.ack_member_await,
                event_slots: self.event_slots,
            }),
    {
    }

    /// The address this node answers to.
    pub fn id(&self) -> (r: Member)
        ensures
            r == self@.id,
    {
        self.id
    }

    /// The member probed this period that has not answered yet, if any.
    pub fn awaited_member(&self) -> (r: Option<Member>)
        ensures
            r == self@.awaiting,
    {
        self.ack_member_await
    }

    /// When the current period started.
    pub fn period_start(&self) -> (r: i64)
        ensures
            r == self@.period_start,
    {
        self.period_start_timestamp
    }

    /// Whether some member asked this node to probe `target` and waits for the answer.
    pub fn has_pending_ping_request(&self, target: Member) -> (r: bool)
        ensures
            r == (requester_of(self@.pending, target) is Some),
    {
        self.pending_ping_req.contains(target)
    }

    /// The event about `member` that this node still gossips, if any.
    pub fn dissemination_event(&self, member: Member) -> (r: Option<MembershipEvent>)
        ensures
            r == event_for(self@.buffer, member),
    {
        self.dissemination_buffer.get(member)
    }

    /// Whether `start_period` can be called, as far as the choice of a member
    /// to probe goes: some other member is known, or will be once the seeds
    /// are added.
    pub fn has_probe_candidate(&self) -> (r: bool)
        ensures
            r == has_other(with_seeds(self@).0, self@.id),
    {
        let members = self.member_store.members();
        let mut i: usize = 0;
        while i < members.len()
            invariant
                i <= members@.len(),
                members@ == self@.members,
                forall|j: int| 0 <= j < i ==> members@[j].member == self.id,
            decreases members@.len() - i,
        {
            if members[i].member != self.id {
                proof {
                    lemma_seeded_keeps_entries(self@);
                }
                return true;
            }
            i += 1;
        }
        if members.len() > 1 {
            return false;
        }
        let mut j: usize = 0;
        while j < self.seeds.len()
            invariant
                j <= self.seeds@.len(),
                members@ == self@.members,
                forall|k: int| 0 <= k < members@.len() ==> members@[k].member == self.id,
                forall|k: int| 0 <= k < j ==> self.seeds@[k] == self.id,
                members@.len() <= 1,
            decreases self.seeds@.len() - j,
        {
            if self.seeds[j] != self.id {
                proof {
                    lemma_seeded_members(self@.members, self@.buffer, self@.seeds);
                    let s = seeded(self@.members, self@.buffer, self@.seeds).0;
                    assert(s[members@.len() + j].member != self.id);
                }
                return true;
            }
            j += 1;
        }
        proof {
            lemma_seeded_members(self@.members, self@.buffer, self@.seeds);
            let s = seeded(self@.members, self@.buffer, self@.seeds).0;
            assert forall|k: int| 0 <= k < s.len() implies s[k].member == self.id by {
                if k >= members@.len() {
                    assert(s[k].member == self@.seeds[k - members@.len()]);
                }
            }
        }
        false
    }

    pub fn get_members(&self) -> (r: &[MembershipEntry])
        ensures
            r@ == self@.members,
    {
        self.member_store.members()
    }

    pub fn pop_effect(&mut self) -> (r: Option<Effect>)
        ensures
            old(self)@.effects.len() == 0 ==> r is None && final(self)@ == old(self)@,
            old(self)@.effects.len() > 0 ==> exists|i: int|
                0 <= i < old(self)@.effects.len() && r == Some(old(self)@.effects[i])
                    && final(self)@ == (VigieState {
                    effects: old(self)@.effects.remove(i),
                    ..old(self)@
                }),
            E::pops_in_order() && old(self)@.effects.len() > 0 ==> r == Some(old(self)@.effects[0])
                && final(self)@ == (VigieState {
                effects: old(self)@.effects.drop_first(),
                ..old(self)@
            }),
    {
        self.effect_store.pop()
    }

    /// How many times an event is gossiped when `member_len` members are known:
    /// the ceiling of log2(member_len), and at least once.
    pub fn compute_infection_count(member_len: u64) -> (r: u64)
        ensures
            r as nat == infection_count(member_len as nat),
            r >= 1,
    {
        if member_len <= 1 {
            1
        } else {
            let mut x = member_len - 1;
            let mut n: u64 = 0;
            proof {
                lemma_floor_log2_le((member_len - 1) as nat);
            }
            while x >= 2
                invariant
                    1 <= x,
                    n + floor_log2(x as nat) == floor_log2((member_len - 1) as nat),
                    floor_log2((member_len - 1) as nat) < member_len - 1 || member_len == 2,
                decreases x,
            {
                x = x / 2;
                n = n + 1;
            }
            n + 1
        }
    }

    /// Refutes a suspicion about this node: the node raises its incarnation above
    /// both its own and the suspicion's, and announces itself alive with it.
    /// Answers whether `new` was such a suspicion.
    fn defend_against_suspicion(&mut self, new: &mut MembershipEvent) -> (r: bool)
        requires
            old(self)@.wf(),
        ensures
            r == (old(new).entry.status is Suspect && old(new).entry.member == old(self)@.id),
            r ==> (final(self)@.members, final(self)@.buffer) == updated(
                old(self)@.id,
                old(self)@.members,
                old(self)@.buffer,
                *old(new),
            ) && final(self)@ == (VigieState {
                members: final(self)@.members,
                buffer: final(self)@.buffer,
                ..old(self)@
            }),
            !r ==> final(self)@ == old(self)@ && *final(new) == *old(new),
            final(self)@.wf(),
    {
        if matches!(new.entry.status, MemberStatus::Suspect) && new.entry.member == self.id {
            let ghost members0 = self.member_store.entries();
            proof {
                lemma_first_index(members0, self.id);
            }
            let own_entry = self.member_store.get_mut(self.id).unwrap();
            let highest = if own_entry.incarnation_counter < new.entry.incarnation_counter {
                new.entry.incarnation_counter
            } else {
                own_entry.incarnation_counter
            };
            let incarnation = highest.saturating_add(1);
            own_entry.incarnation_counter = incarnation;
            new.entry.incarnation_counter = incarnation;
            new.entry.status = MemberStatus::Alive;
            new.infection_number = Self::compute_infection_count(self.member_store.len());
            proof {
                let i = first_index(members0, self.id);
                assert(incarnation == refuted_incarnation(
                    members0[i].incarnation_counter,
                    old(new).entry.incarnation_counter,
                ));
                lemma_put_event(self.dissemination_buffer@, *new);
                lemma_first_index_update(members0, i, self.member_store.entries()[i], self.id);
                lemma_first_index(self.member_store.entries(), self.id);
                if let Some(w) = self.ack_member_await {
                    lemma_first_index(members0, w);
                    lemma_first_index_update(members0, i, self.member_store.entries()[i], w);
                    lemma_first_index(self.member_store.entries(), w);
                }
                assert(*new == MembershipEvent {
                    entry: refutation(self.id, incarnation),
                    infection_number: infection_count(members0.len()) as u64,
                });
            }
            self.dissemination_buffer.put(*new);
            true
        } else {
            false
        }
    }

    /// Takes in one event received from another node.
    fn update_event(&mut self, new: MembershipEvent)
        requires
            old(self)@.wf(),
        ensures
            (final(self)@.members, final(self)@.buffer) == updated(
                old(self)@.id,
                old(self)@.members,
                old(self)@.buffer,
                new,
            ),
            final(self)@ == (VigieState {
                members: final(self)@.members,
                buffer: final(self)@.buffer,
                ..old(self)@
            }),
            final(self)@.wf(),
    {
        let mut new = new;
        if self.defend_against_suspicion(&mut new) {
            return;
        }
        let ghost members0 = self.member_store.entries();
        let ghost buffer0 = self.dissemination_buffer@;
        proof {
            lemma_first_index(members0, new.entry.member);
            lemma_first_index(members0, self.id);
            if let Some(w) = self.ack_member_await {
                lemma_first_index(members0, w);
            }
        }
        let Some(known) = self.member_store.get(new.entry.member) else {
            self.member_store.insert(new.entry);
            let c = Self::compute_infection_count(self.member_store.len());
            let e = MembershipEvent { entry: new.entry, infection_number: c };
            proof {
                lemma_put_event(buffer0, e);
                lemma_first_index_push(members0, new.entry, self.id);
                lemma_first_index(self.member_store.entries(), self.id);
                if let Some(w) = self.ack_member_await {
                    lemma_first_index_push(members0, new.entry, w);
                    lemma_first_index(self.member_store.entries(), w);
                }
            }
            self.dissemination_buffer.put(e);
            return;
        };
        let ghost i = first_index(members0, new.entry.member);
        let supersede = match (
            (new.entry.status, new.entry.incarnation_counter),
            (known.status, known.incarnation_counter),
        ) {
            ((MemberStatus::Confirm, inc_new), (MemberStatus::Confirm, inc_known)) => {
                self.member_store.get_mut(new.entry.member).unwrap().incarnation_counter =
                    if inc_new < inc_known {
                    inc_known
                } else {
                    inc_new
                };
                proof {
                    lemma_first_index_update(members0, i, self.member_store.entries()[i], self.id);
                    lemma_first_index(self.member_store.entries(), self.id);
                    if let Some(w) = self.ack_member_await {
                        lemma_first_index_update(members0, i, self.member_store.entries()[i], w);
                        lemma_first_index(self.member_store.entries(), w);
                    }
                }
                return;
            },
            ((MemberStatus::Confirm, _), _) => true,
            ((MemberStatus::Suspect, i), (MemberStatus::Suspect, j)) if i > j => true,
            ((MemberStatus::Suspect, i), (MemberStatus::Alive, j)) if i >= j => true,
            ((MemberStatus::Alive, i), (MemberStatus::Suspect, j)) if i > j => true,
            ((MemberStatus::Alive, i), (MemberStatus::Alive, j)) if i > j => true,
            _ => false,
        };
        if !supersede {
            proof {
                assert(!supersedes(new.entry, members0[i]));
            }
            return;
        }
        *self.member_store.get_mut(new.entry.member).unwrap() = new.entry;
        new.infection_number = Self::compute_infection_count(self.member_store.len());
        proof {
            assert(supersedes(new.entry, members0[i]));
            lemma_put_event(buffer0, new);
            lemma_first_index_update(members0, i, new.entry, self.id);
            lemma_first_index(self.member_store.entries(), self.id);
            if let Some(w) = self.ack_member_await {
                lemma_first_index_update(members0, i, new.entry, w);
                lemma_first_index(self.member_store.entries(), w);
            }
        }
        self.dissemination_buffer.put(new);
    }

    /// Takes in the events that a message carried, first to last.
    fn merge_received_events(&mut self, events: Vec<MembershipEvent>)
        requires
            old(self)@.wf(),
        ensures
            (final(self)@.members, final(self)@.buffer) == merged(
                old(self)@.id,
                old(self)@.members,
                old(self)@.buffer,
                events@,
            ),
            final(self)@ == (VigieState {
                members: final(self)@.members,
                buffer: final(self)@.buffer,
                ..old(self)@
            }),
            final(self)@.wf(),
    {
        let ghost start = self@;
        let mut i: usize = 0;
        while i < events.len()
            invariant
                i <= events@.len(),
                self@.wf(),
                self@.id == start.id,
                (self@.members, self@.buffer) == merged(
                    start.id,
                    start.members,
                    start.buffer,
                    events@.subrange(0, i as int),
                ),
                self@ == (VigieState { members: self@.members, buffer: self@.buffer, ..start }),
            decreases events@.len() - i,
        {
            let e = events[i];
            proof {
                let pre = events@.subrange(0, i as int + 1);
                assert(pre.drop_last() =~= events@.subrange(0, i as int));
                assert(pre.last() == e);
                assert(seq![e][0] == e);
                assert(events@[i as int] == e);
            }
            self.update_event(e);
            i += 1;
        }
        proof {
            assert(events@.subrange(0, events@.len() as int) =~= events@);
        }
    }

    /// A member believed dead pinged this node, so it is alive after all;
    /// `src_event` is what it said of itself, if anything.
    fn resurrection(&mut self, src: Member, src_event: Option<MembershipEvent>)
        requires
            old(self)@.wf(),
        ensures
            (final(self)@.members, final(self)@.buffer) == resurrected(
                old(self)@.members,
                old(self)@.buffer,
                src,
                src_event,
            ),
            final(self)@ == (VigieState {
                members: final(self)@.members,
                buffer: final(self)@.buffer,
                ..old(self)@
            }),
            final(self)@.wf(),
    {
        let ghost members0 = self.member_store.entries();
        let ghost buffer0 = self.dissemination_buffer@;
        proof {
            lemma_first_index(members0, src);
            lemma_first_index(members0, self.id);
            if let Some(w) = self.ack_member_await {
                lemma_first_index(members0, w);
            }
        }
        let found = self.member_store.get(src);
        if let Some(entry) = found {
            if matches!(entry.status, MemberStatus::Confirm) {
                let ghost i = first_index(members0, src);
                let src_member = self.member_store.get_mut(src).unwrap();
                src_member.status = MemberStatus::Alive;
                if let Some(received_event) = src_event {
                    src_member.incarnation_counter = received_event.entry.incarnation_counter;
                    let e = MembershipEvent {
                        entry: MembershipEntry {
                            member: src,
                            incarnation_counter: received_event.entry.incarnation_counter,
                            status: MemberStatus::Alive,
                        },
                        infection_number: Self::compute_infection_count(self.member_store.len()),
                    };
                    proof {
                        lemma_put_event(buffer0, e);
                    }
                    self.dissemination_buffer.put(e);
                }
                proof {
                    let after = self.member_store.entries();
                    lemma_first_index_update(members0, i, after[i], self.id);
                    lemma_first_index(after, self.id);
                    if let Some(w) = self.ack_member_await {
                        lemma_first_index_update(members0, i, after[i], w);
                        lemma_first_index(after, w);
                    }
                }
            }
        }
    }

    /// Adds the seeds to the membership table, as alive, and gossips about them.
    pub(crate) fn seeds(&mut self)
        requires
            has_member(old(self)@.members, old(self)@.id),
            unique_members(old(self)@.buffer),
            all_infectious(old(self)@.buffer),
        ensures
            (final(self)@.members, final(self)@.buffer) == seeded(
                old(self)@.members,
                old(self)@.buffer,
                old(self)@.seeds,
            ),
            final(self)@ == (VigieState {
                members: final(self)@.members,
                buffer: final(self)@.buffer,
                ..old(self)@
            }),
            has_member(final(self)@.members, old(self)@.id),
            unique_members(final(self)@.buffer),
            all_infectious(final(self)@.buffer),
            forall|m: Member|
                has_member(old(self)@.members, m) ==> has_member(final(self)@.members, m),
    {
        let ghost start = self@;
        let mut i: usize = 0;
        while i < self.seeds.len()
            invariant
                i <= self.seeds@.len(),
                self.seeds@ == start.seeds,
                (self@.members, self@.buffer) == seeded(
                    start.members,
                    start.buffer,
                    start.seeds.subrange(0, i as int),
                ),
                self@ == (VigieState { members: self@.members, buffer: self@.buffer, ..start }),
                unique_members(self@.buffer),
                all_infectious(self@.buffer),
                forall|m: Member| has_member(start.members, m) ==> has_member(self@.members, m),
                has_member(start.members, start.id),
            decreases self.seeds@.len() - i,
        {
            let seed = self.seeds[i];
            let entry = MembershipEntry {
                member: seed,
                incarnation_counter: 0,
                status: MemberStatus::Alive,
            };
            let ghost members0 = self.member_store.entries();
            self.member_store.insert(entry);
            let e = MembershipEvent::new(
                entry,
                Self::compute_infection_count(self.member_store.len()),
            );
            proof {
                lemma_put_event(self.dissemination_buffer@, e);
                let pre = start.seeds.subrange(0, i as int + 1);
                assert(pre.drop_last() =~= start.seeds.subrange(0, i as int));
                assert(pre.last() == seed);
                assert forall|m: Member| has_member(members0, m) implies has_member(
                    self.member_store.entries(),
                    m,
                ) by {
                    let j = choose|j: int| 0 <= j < members0.len() && members0[j].member == m;
                    assert(self.member_store.entries()[j] == members0[j]);
                }
            }
            self.dissemination_buffer.put(e);
            i += 1;
        }
        proof {
            assert(start.seeds.subrange(0, start.seeds.len() as int) =~= start.seeds);
        }
    }

    /// The events to piggyback on the next message.
    fn grab_events(&mut self) -> (out: Vec<MembershipEvent>)
        requires
            old(self)@.wf(),
        ensures
            is_grab(old(self)@.buffer, old(self)@.event_slots as nat, out@, final(self)@.buffer),
            final(self)@ == (VigieState { buffer: final(self)@.buffer, ..old(self)@ }),
            final(self)@.wf(),
    {
        self.dissemination_buffer.grab(self.event_slots)
    }

    /// The suspicion timeout for `suspect` expired: if it is still suspected, its
    /// death is confirmed and gossiped. The time `now` plays no part.
    pub fn confirm_suspicion(&mut self, now: i64, suspect: Member) -> (r: Result<(), VigieError>)
        requires
            old(self)@.wf(),
        ensures
            r is Ok,
            final(self)@ == confirmed(old(self)@, suspect),
            final(self)@.wf(),
    {
        let ghost members0 = self.member_store.entries();
        proof {
            lemma_first_index(members0, suspect);
            lemma_first_index(members0, self.id);
            if let Some(w) = self.ack_member_await {
                lemma_first_index(members0, w);
            }
        }
        let Some(entry) = self.member_store.get(suspect) else {
            return Ok(());
        };
        if !matches!(entry.status, MemberStatus::Suspect) {
            return Ok(());
        }
        let ghost i = first_index(members0, suspect);
        self.member_store.get_mut(suspect).unwrap().status = MemberStatus::Confirm;
        let event = MembershipEvent {
            entry: MembershipEntry { status: MemberStatus::Confirm, ..entry },
            infection_number: Self::compute_infection_count(self.member_store.len()),
        };
        proof {
            let after = self.member_store.entries();
            assert(after[i] == event.entry);
            lemma_put_event(self.dissemination_buffer@, event);
            lemma_first_index_update(members0, i, after[i], self.id);
            lemma_first_index(after, self.id);
            if let Some(w) = self.ack_member_await {
                lemma_first_index_update(members0, i, after[i], w);
                lemma_first_index(after, w);
            }
        }
        self.dissemination_buffer.put(event);
        Ok(())
    }

    /// The probe timeout expired: asks up to `k` other members to probe the
    /// member that did not answer.
    pub fn indirect_probe(&mut self, now: i64) -> (r: Result<(), VigieError>)
        requires
            old(self)@.wf(),
            i64::MIN <= old(self)@.period_start + old(self)@.timeout <= i64::MAX,
        ensures
            old(self)@.period_start + old(self)@.timeout > now ==> r == Err::<(), VigieError>(
                VigieError::TimeoutNotReached,
            ) && final(self)@ == old(self)@,
            old(self)@.period_start + old(self)@.timeout <= now ==> r is Ok && probes_requested(
                old(self)@,
                final(self)@,
            ),
            final(self)@.wf(),
    {
        if self.period_start_timestamp + self.timeout > now {
            return Err(VigieError::TimeoutNotReached);
        }
        let Some(awaiting_member) = self.ack_member_await else {
            return Ok(());
        };
        let ghost start = self@;
        let want: u16 = if self.k < u16::MAX {
            self.k + 1
        } else {
            self.k
        };
        let sample = self.member_store.get_randomly(want, awaiting_member);
        let mut sent: u16 = 0;
        let mut i: usize = 0;
        while i < sample.len() && sent < self.k
            invariant
                i <= sample@.len(),
                sent <= start.k,
                self.k == start.k,
                self.id == start.id,
                sent as nat == others(sample@.subrange(0, i as int), start.id).len(),
                self@ == (VigieState {
                    effects: start.effects + probe_requests(
                        start.id,
                        awaiting_member,
                        others(sample@.subrange(0, i as int), start.id),
                    ),
                    ..start
                }),
            decreases sample@.len() - i,
        {
            let member = sample[i];
            proof {
                let pre = sample@.subrange(0, i as int + 1);
                assert(pre.drop_last() =~= sample@.subrange(0, i as int));
                assert(pre.last() == member);
                reveal(Seq::filter);
            }
            if member.member != self.id {
                self.effect_store.push(
                    Effect::PingRequest {
                        src: self.id,
                        dest: member.member,
                        target: awaiting_member,
                    },
                );
                proof {
                    let prev = others(sample@.subrange(0, i as int), start.id);
                    assert(probe_requests(start.id, awaiting_member, prev.push(member))
                        =~= probe_requests(start.id, awaiting_member, prev).push(
                        Effect::PingRequest {
                            src: start.id,
                            dest: member.member,
                            target: awaiting_member,
                        },
                    ));
                }
                sent += 1;
            }
            i += 1;
        }
        proof {
            let id = start.id;
            let prefix = sample@.subrange(0, i as int);
            let suffix = sample@.subrange(i as int, sample@.len() as int);
            assert(sample@ =~= prefix + suffix);
            Seq::filter_distributes_over_add(
                prefix,
                suffix,
                |e: MembershipEntry| e.member != id,
            );
            let all = others(sample@, id);
            let got = others(prefix, id);
            assert(all == got + others(suffix, id));
            if i == sample@.len() {
                assert(others(suffix, id) =~= Seq::<MembershipEntry>::empty()) by {
                    reveal(Seq::filter);
                    assert(suffix =~= Seq::<MembershipEntry>::empty());
                }
                assert(all =~= got);
                assert(relays(sample@, id, start.k) =~= got);
            } else {
                assert(relays(sample@, id, start.k) =~= got);
            }
            assert(is_probe_sample(start.members, awaiting_member, sample_size(start.k), sample@));
        }
        Ok(())
    }

    /// The member to probe next: the walk over the membership table goes on,
    /// skipping this node, and restarts on a reshuffled table when done. The
    /// seeds are added first when the node knows no one else.
    fn select_next_member(&mut self) -> (dest: MembershipEntry)
        requires
            old(self)@.wf(),
            has_other(with_seeds(old(self)@).0, old(self)@.id),
        ensures
            is_probe_pick(
                with_seeds(old(self)@).0,
                old(self)@.cursor,
                old(self)@.id,
                final(self)@.members,
                final(self)@.cursor,
                dest,
            ),
            final(self)@ == (VigieState {
                members: final(self)@.members,
                cursor: final(self)@.cursor,
                buffer: with_seeds(old(self)@).1,
                ..old(self)@
            }),
            final(self)@.wf(),
    {
        if self.member_store.len() <= 1 {
            self.seeds();
        }
        let ghost m1 = self.member_store.entries();
        let ghost cursor0 = self.member_store.cursor();
        let ghost mid = self@;
        let ghost mut fresh = false;
        let mut found: Option<MembershipEntry> = None;
        proof {
            lemma_first_index(m1, self.id);
        }
        loop
            invariant_except_break
                found is None,
                !fresh ==> self@.members == m1 && cursor0 <= self@.cursor && forall|k: int|
                    cursor0 <= k < self@.cursor && k < m1.len() ==> m1[k].member == mid.id,
                fresh ==> exists|j: int|
                    self@.cursor <= j < self@.members.len() && self@.members[j].member != mid.id,
                fresh ==> forall|k: int| 0 <= k < self@.cursor ==> self@.members[k].member == mid.id,
            invariant
                self@ == (VigieState {
                    members: self@.members,
                    cursor: self@.cursor,
                    ..mid
                }),
                self@.members.to_multiset() == m1.to_multiset(),
                has_other(m1, mid.id),
                (exists|j: int| is_first_other_from(m1, cursor0, mid.id, j)) ==> !fresh,
            ensures
                found is Some,
                found->0.member != mid.id,
                self@.members.contains(found->0),
                !fresh ==> is_first_other_from(m1, cursor0, mid.id, self@.cursor - 1) && found->0
                    == m1[self@.cursor - 1] && self@.members == m1,
                fresh ==> 1 <= self@.cursor <= self@.members.len() && found->0
                    == self@.members[self@.cursor - 1] && forall|k: int|
                    0 <= k < self@.cursor - 1 ==> self@.members[k].member == mid.id,
            decreases
                (if fresh {
                    0int
                } else {
                    1int
                }),
                (if self@.cursor < self@.members.len() {
                    self@.members.len() - self@.cursor
                } else {
                    0
                }),
        {
            let ghost c = self.member_store.cursor();
            if let Some(dest) = self.member_store.next() {
                if dest.member == self.id {
                    continue;
                } else {
                    proof {
                        assert(self@.members[c as int] == dest);
                        if !fresh {
                            assert(is_first_other_from(m1, cursor0, mid.id, c as int));
                        }
                    }
                    found = Some(dest);
                    break;
                }
            }
            proof {
                if !fresh {
                    assert forall|j: int| !is_first_other_from(m1, cursor0, mid.id, j) by {
                        if is_first_other_from(m1, cursor0, mid.id, j) {
                            assert(m1[j].member == mid.id);
                        }
                    }
                }
            }
            let ghost before = self.member_store.entries();
            self.member_store.shuffle();
            proof {
                fresh = true;
                let i = choose|i: int| 0 <= i < m1.len() && m1[i].member != mid.id;
                assert(m1.contains(m1[i]));
                lemma_same_multiset_contains(m1, self.member_store.entries(), m1[i]);
                let j = choose|j: int|
                    0 <= j < self.member_store.entries().len() && self.member_store.entries()[j]
                        == m1[i];
                assert(self@.members[j].member != mid.id);
            }
        }
        let dest = found.unwrap();
        proof {
            assert forall|j: int| is_first_other_from(m1, cursor0, mid.id, j) implies self@.members
                == m1 && dest == m1[j] && self@.cursor == j + 1 by {
                let c = self@.cursor - 1;
                assert(is_first_other_from(m1, cursor0, mid.id, c));
                if j < c {
                    assert(m1[j].member == mid.id);
                } else if c < j {
                    assert(m1[c].member == mid.id);
                }
            }
            lemma_first_index(self@.members, mid.id);
            lemma_same_multiset_has_member(m1, self@.members, mid.id);
            if let Some(w) = mid.awaiting {
                lemma_same_multiset_has_member(m1, self@.members, w);
            }
        }
        dest
    }

    /// Starts a probe period at time `now`: probes the next member, suspects
    /// the member probed last period if it has not answered, and schedules the
    /// probe timeout and the next period.
    pub fn start_period(&mut self, now: i64) -> (r: Result<(), VigieError>)
        requires
            old(self)@.wf(),
            i64::MIN <= old(self)@.period_start + old(self)@.period <= i64::MAX,
            old(self)@.period_start + old(self)@.period <= now ==> has_other(
                with_seeds(old(self)@).0,
                old(self)@.id,
            ),
        ensures
            old(self)@.period_start + old(self)@.period > now ==> r == Err::<(), VigieError>(
                VigieError::PeriodNotOver,
            ) && final(self)@ == old(self)@,
            old(self)@.period_start + old(self)@.period <= now ==> r is Ok && period_started(
                old(self)@,
                now,
                final(self)@,
            ),
            final(self)@.wf(),
    {
        if self.period_start_timestamp + self.period > now {
            return Err(VigieError::PeriodNotOver);
        }
        let ghost start = self@;
        self.period_start_timestamp = now;
        let dest = self.select_next_member();
        let ghost walked = self@.members;
        let ghost cursor = self@.cursor;
        let events = self.grab_events();
        let ghost grabbed = self@.buffer;
        let ghost out = events@;
        let ping = Effect::Ping { src: self.id, dest: dest.member, events };
        let ghost ping_copy = ping;
        self.effect_store.push(ping);
        let previous = self.ack_member_await;
        self.ack_member_await = Some(dest.member);
        let ghost st = self@;
        proof {
            lemma_same_multiset_contains(walked, walked, dest);
            assert(st == (VigieState {
                members: walked,
                cursor,
                buffer: grabbed,
                effects: start.effects.push(ping_copy),
                period_start: now,
                awaiting: Some(dest.member),
                ..start
            }));
        }
        if let Some(waiting) = previous {
            proof {
                lemma_seeded_keeps(start);
                lemma_same_multiset_has_member(with_seeds(start).0, walked, waiting);
                lemma_first_index(walked, waiting);
                lemma_first_index(walked, start.id);
                lemma_first_index(walked, dest.member);
            }
            let ghost i = first_index(walked, waiting);
            let waiting_member = self.member_store.get_mut(waiting).unwrap();
            waiting_member.status = MemberStatus::Suspect;
            let inc = waiting_member.incarnation_counter;
            match self.dissemination_buffer.index_of(waiting) {
                Some(j) => {
                    let old_event = self.dissemination_buffer.at(j);
                    let e = MembershipEvent {
                        entry: MembershipEntry { status: MemberStatus::Suspect, ..old_event.entry },
                        ..old_event
                    };
                    proof {
                        crate::dissemination::lemma_event_index(grabbed, waiting);
                    }
                    self.dissemination_buffer.replace_at(j, e);
                },
                None => {
                    let e = MembershipEvent {
                        entry: MembershipEntry {
                            member: waiting,
                            incarnation_counter: inc,
                            status: MemberStatus::Suspect,
                        },
                        infection_number: Self::compute_infection_count(self.member_store.len()),
                    };
                    proof {
                        lemma_put_event(grabbed, e);
                    }
                    self.dissemination_buffer.put(e);
                },
            }
            self.effect_store.push(
                Effect::ScheduleSuspicionTimeout { delay: self.suspicion_timeout, target: waiting },
            );
            proof {
                let after = self@.members;
                lemma_first_index_update(walked, i, after[i], start.id);
                lemma_first_index_update(walked, i, after[i], dest.member);
                lemma_first_index(after, start.id);
                lemma_first_index(after, dest.member);
                assert(self@ == suspect_missing(st, waiting));
            }
        }
        let ghost st2 = self@;
        self.effect_store.push(
            Effect::ScheduleIndirectProbe { delay: self.timeout, target: dest.member },
        );
        self.effect_store.push(Effect::ScheduleNextPeriod { delay: self.period });
        proof {
            assert(self@ == scheduled(st2, start.timeout, start.period, dest.member));
            assert(is_ping(ping_copy, start.id, dest.member, out));
            assert(self@ == after_period_start(start, now, walked, cursor, dest, grabbed, ping_copy));
            assert(is_probe_pick(with_seeds(start).0, start.cursor, start.id, walked, cursor, dest));
            assert(is_grab(with_seeds(start).1, start.event_slots as nat, out, grabbed));
        }
        Ok(())
    }


    /// Takes in a message from another node. Messages not addressed to this
    /// node, and requests to probe a member it does not know, are ignored. An
    /// answer to a probe made on another node's behalf is relayed to that node
    /// in the name of the member that answered.
    pub fn ingest(&mut self, message: Message) -> (r: Result<(), VigieError>)
        requires
            old(self)@.wf(),
        ensures
            r is Ok,
            ingested(old(self)@, message, final(self)@),
            final(self)@.wf(),
    {
        let ghost start = self@;
        match message {
            Message::Ping { src, dest, events } => if dest == self.id {
                let src_event = first_event_about(&events, src);
                let ghost evs = events@;
                self.merge_received_events(events);
                let ghost merged_state = self@;
                self.resurrection(src, src_event);
                let ghost resurrected_buffer = self@.buffer;
                let events = self.grab_events();
                let ghost out = events@;
                let ack = Effect::Ack { src: dest, dest: src, events };
                let ghost ack_copy = ack;
                self.effect_store.push(ack);
                proof {
                    assert(is_ack(ack_copy, dest, src, out));
                    assert(is_grab(resurrected_buffer, start.event_slots as nat, out, self@.buffer));
                    assert(self@.wf());
                    let m = merged(start.id, start.members, start.buffer, evs);
                    let rr = resurrected(m.0, m.1, src, event_for(evs, src));
                    assert(rr.1 == resurrected_buffer);
                    assert(self@ == (VigieState {
                        members: rr.0,
                        buffer: self@.buffer,
                        effects: start.effects.push(ack_copy),
                        ..start
                    }));
                }
            },
            Message::Ack { src, dest, events } => if dest == self.id {
                self.merge_received_events(events);
                let ghost merged_buffer = self@.buffer;
                let pending = self.pending_ping_req.remove(src);
                if let Some(pending) = pending {
                    let events = self.grab_events();
                    let ghost out = events@;
                    let ack = Effect::Ack { src, dest: pending, events };
                    let ghost ack_copy = ack;
                    self.effect_store.push(ack);
                    proof {
                        assert(is_ack(ack_copy, src, pending, out));
                        assert(is_grab(merged_buffer, start.event_slots as nat, out, self@.buffer));
                        assert(requester_of(start.pending, src) == Some(pending));
                    }
                }
                if let Some(waiting) = self.ack_member_await {
                    if waiting == src {
                        self.ack_member_await = None;
                    }
                }
                assert(self@.wf());
            },
            Message::PingRequest { src, target, dest } => if dest == self.id
                && self.member_store.contains(target) {
                self.pending_ping_req.insert(target, src);
                let events = self.grab_events();
                let ghost out = events@;
                let ping = Effect::Ping { src: self.id, dest: target, events };
                let ghost ping_copy = ping;
                self.effect_store.push(ping);
                proof {
                    assert(is_ping(ping_copy, start.id, target, out));
                    assert(is_grab(start.buffer, start.event_slots as nat, out, self@.buffer));
                    assert(self@.wf());
                }
            },
        }
        Ok(())
    }

}

/// The first of `events` that is about `member`.
fn first_event_about(events: &Vec<MembershipEvent>, member: Member) -> (r: Option<MembershipEvent>)
    ensures
        r == event_for(events@, member),
{
    let mut i: usize = 0;
    while i < events.len()
        invariant
            i <= events@.len(),
            forall|j: int| 0 <= j < i ==> events@[j].entry.member != member,
        decreases events@.len() - i,
    {
        if events[i].entry.member == member {
            proof {
                lemma_event_entries(events@);
                assert(is_first_index(event_entries(events@), member, i as int));
                lemma_first_index_unique(event_entries(events@), member, i as int);
            }
            return Some(events[i]);
        }
        i += 1;
    }
    proof {
        lemma_event_index(events@, member);
        lemma_event_entries(events@);
        lemma_first_index(event_entries(events@), member);
        if event_index(events@, member) >= 0 {
            assert(events@[event_index(events@, member)].entry.member == member);
        }
    }
    None
}

/// Taking in `message` took node state `old_state` to `new_state`.
pub open spec fn ingested(old_state: VigieState, message: Message, new_state: VigieState) -> bool {
    match message {
        Message::Ping { src, dest, events } => if dest == old_state.id {
            let m = merged(old_state.id, old_state.members, old_state.buffer, events@);
            let r = resurrected(m.0, m.1, src, event_for(events@, src));
            exists|out: Seq<MembershipEvent>, rest: Seq<MembershipEvent>, ack: Effect|
                #![trigger is_grab(r.1, old_state.event_slots as nat, out, rest), is_ack(ack, dest, src, out)]
                is_grab(r.1, old_state.event_slots as nat, out, rest) && is_ack(ack, dest, src, out)
                    && new_state == (VigieState {
                    members: r.0,
                    buffer: rest,
                    effects: old_state.effects.push(ack),
                    ..old_state
                })
        } else {
            new_state == old_state
        },
        Message::Ack { src, dest, events } => if dest == old_state.id {
            let m = merged(old_state.id, old_state.members, old_state.buffer, events@);
            let awaiting = if old_state.awaiting == Some(src) {
                None
            } else {
                old_state.awaiting
            };
            let st = VigieState {
                members: m.0,
                buffer: m.1,
                pending: drop_request(old_state.pending, src),
                awaiting,
                ..old_state
            };
            match requester_of(old_state.pending, src) {
                None => new_state == st,
                Some(p) => exists|out: Seq<MembershipEvent>, rest: Seq<MembershipEvent>, ack: Effect|
                    #![trigger is_grab(m.1, old_state.event_slots as nat, out, rest), is_ack(ack, src, p, out)]
                    is_grab(m.1, old_state.event_slots as nat, out, rest) && is_ack(
                        ack,
                        src,
                        p,
                        out,
                    ) && new_state == (VigieState {
                        buffer: rest,
                        effects: old_state.effects.push(ack),
                        ..st
                    }),
            }
        } else {
            new_state == old_state
        },
        Message::PingRequest { src, dest, target } => if dest == old_state.id && has_member(
            old_state.members,
            target,
        ) {
            exists|out: Seq<MembershipEvent>, rest: Seq<MembershipEvent>, ping: Effect|
                #![trigger is_grab(old_state.buffer, old_state.event_slots as nat, out, rest), is_ping(ping, old_state.id, target, out)]
                is_grab(old_state.buffer, old_state.event_slots as nat, out, rest) && is_ping(
                    ping,
                    old_state.id,
                    target,
                    out,
                ) && new_state == (VigieState {
                    buffer: rest,
                    effects: old_state.effects.push(ping),
                    pending: put_request(old_state.pending, target, src),
                    ..old_state
                })
        } else {
            new_state == old_state
        },
    }
}

/// The table and buffer that the probe target is chosen from: with the seeds
/// added where the node knows no one but itself.
pub open spec fn with_seeds(st: VigieState) -> (Seq<MembershipEntry>, Seq<MembershipEvent>) {
    if st.members.len() <= 1 {
        seeded(st.members, st.buffer, st.seeds)
    } else {
        (st.members, st.buffer)
    }
}

/// Some entry of `s` is about another member than `id`.
pub open spec fn has_other(s: Seq<MembershipEntry>, id: Member) -> bool {
    exists|i: int| 0 <= i < s.len() && s[i].member != id
}

/// `j` is the first position from `from` on whose entry is about another member than `id`.
pub open spec fn is_first_other_from(s: Seq<MembershipEntry>, from: nat, id: Member, j: int) -> bool {
    &&& from <= j < s.len()
    &&& s[j].member != id
    &&& forall|k: int| from <= k < j ==> s[k].member == id
}

/// `dest` is a fair pick of the member to probe from table `s`, walked from
/// `cursor` by node `id`: another member, taken from the (possibly reshuffled)
/// table; where the walk has an entry left it is the next one in order, and
/// otherwise the walk restarts on the reshuffled table and `dest` is its first
/// entry that is not this node.
pub open spec fn is_probe_pick(
    s: Seq<MembershipEntry>,
    cursor: nat,
    id: Member,
    walked: Seq<MembershipEntry>,
    new_cursor: nat,
    dest: MembershipEntry,
) -> bool {
    &&& dest.member != id
    &&& walked.contains(dest)
    &&& walked.to_multiset() == s.to_multiset()
    &&& forall|j: int|
        is_first_other_from(s, cursor, id, j) ==> walked == s && dest == s[j] && new_cursor == j + 1
    &&& (forall|j: int| !is_first_other_from(s, cursor, id, j)) ==> 1 <= new_cursor <= walked.len()
        && dest == walked[new_cursor - 1] && forall|k: int|
        0 <= k < new_cursor - 1 ==> walked[k].member == id
}

/// `e` is a probe from `src` to `dest` that carries `events`.
pub open spec fn is_ping(e: Effect, src: Member, dest: Member, events: Seq<MembershipEvent>) -> bool {
    e matches Effect::Ping { src: s, dest: d, events: evs } && s == src && d == dest && evs@ == events
}

/// `e` is an acknowledgement from `src` to `dest` that carries `events`.
pub open spec fn is_ack(e: Effect, src: Member, dest: Member, events: Seq<MembershipEvent>) -> bool {
    e matches Effect::Ack { src: s, dest: d, events: evs } && s == src && d == dest && evs@ == events
}

/// The state once member `w`, probed last period, is suspected for not having
/// answered: its entry and its event say so, and a suspicion timeout is scheduled.
pub open spec fn suspect_missing(st: VigieState, w: Member) -> VigieState {
    let i = first_index(st.members, w);
    let j = event_index(st.buffer, w);
    VigieState {
        members: st.members.update(
            i,
            MembershipEntry { status: MemberStatus::Suspect, ..st.members[i] },
        ),
        buffer: if j >= 0 {
            st.buffer.update(
                j,
                MembershipEvent {
                    entry: MembershipEntry { status: MemberStatus::Suspect, ..st.buffer[j].entry },
                    ..st.buffer[j]
                },
            )
        } else {
            st.buffer.push(
                MembershipEvent {
                    entry: MembershipEntry {
                        member: w,
                        incarnation_counter: st.members[i].incarnation_counter,
                        status: MemberStatus::Suspect,
                    },
                    infection_number: infection_count(st.members.len()) as u64,
                },
            )
        },
        effects: st.effects.push(
            Effect::ScheduleSuspicionTimeout { delay: st.suspicion_timeout, target: w },
        ),
        ..st
    }
}

/// The state with the probe timeout and the next period scheduled.
pub open spec fn scheduled(st: VigieState, timeout: i64, period: i64, target: Member) -> VigieState {
    VigieState {
        effects: st.effects.push(Effect::ScheduleIndirectProbe { delay: timeout, target }).push(
            Effect::ScheduleNextPeriod { delay: period },
        ),
        ..st
    }
}

/// The state after a period started at `now`, given the walk's outcome
/// (`walked`, `cursor`, `dest`), the buffer left by gossiping, and the probe sent.
pub open spec fn after_period_start(
    old_state: VigieState,
    now: i64,
    walked: Seq<MembershipEntry>,
    cursor: nat,
    dest: MembershipEntry,
    grabbed: Seq<MembershipEvent>,
    ping: Effect,
) -> VigieState {
    let st = VigieState {
        members: walked,
        cursor,
        buffer: grabbed,
        effects: old_state.effects.push(ping),
        period_start: now,
        awaiting: Some(dest.member),
        ..old_state
    };
    let st2 = match old_state.awaiting {
        Some(w) => suspect_missing(st, w),
        None => st,
    };
    scheduled(st2, old_state.timeout, old_state.period, dest.member)
}

/// A period started at `now` took node state `old_state` to `new_state`.
pub open spec fn period_started(old_state: VigieState, now: i64, new_state: VigieState) -> bool {
    exists|
        walked: Seq<MembershipEntry>,
        cursor: nat,
        dest: MembershipEntry,
        out: Seq<MembershipEvent>,
        grabbed: Seq<MembershipEvent>,
        ping: Effect,
    |
        #![trigger is_probe_pick(with_seeds(old_state).0, old_state.cursor, old_state.id, walked, cursor, dest), is_grab(with_seeds(old_state).1, old_state.event_slots as nat, out, grabbed), is_ping(ping, old_state.id, dest.member, out)]
        is_probe_pick(
            with_seeds(old_state).0,
            old_state.cursor,
            old_state.id,
            walked,
            cursor,
            dest,
        ) && is_grab(with_seeds(old_state).1, old_state.event_slots as nat, out, grabbed)
            && is_ping(ping, old_state.id, dest.member, out) && new_state == after_period_start(
            old_state,
            now,
            walked,
            cursor,
            dest,
            grabbed,
            ping,
        )
}

/// The table after seeding is the table followed by one entry per seed.
pub proof fn lemma_seeded_members(
    members: Seq<MembershipEntry>,
    buffer: Seq<MembershipEvent>,
    seeds: Seq<Member>,
)
    ensures
        seeded(members, buffer, seeds).0 == members + seeds.map_values(|m: Member| seed_entry(m)),
    decreases seeds.len(),
{
    if seeds.len() > 0 {
        lemma_seeded_members(members, buffer, seeds.drop_last());
        assert(members + seeds.map_values(|m: Member| seed_entry(m)) =~= (members
            + seeds.drop_last().map_values(|m: Member| seed_entry(m))).push(seed_entry(seeds.last())));
    }
}

/// Seeding keeps the entries already there, in their place.
pub proof fn lemma_seeded_keeps_entries(st: VigieState)
    ensures
        forall|i: int| 0 <= i < st.members.len() ==> #[trigger] with_seeds(st).0[i] == st.members[i],
        st.members.len() <= with_seeds(st).0.len(),
{
    lemma_seeded_members(st.members, st.buffer, st.seeds);
}

/// Seeding keeps every member already known.
pub proof fn lemma_seeded_keeps(st: VigieState)
    ensures
        forall|m: Member| has_member(st.members, m) ==> has_member(with_seeds(st).0, m),
{
    if st.members.len() <= 1 {
        lemma_seeded_grows(st.members, st.buffer, st.seeds);
    }
}

pub proof fn lemma_seeded_grows(
    members: Seq<MembershipEntry>,
    buffer: Seq<MembershipEvent>,
    seeds: Seq<Member>,
)
    ensures
        forall|m: Member| has_member(members, m) ==> has_member(seeded(members, buffer, seeds).0, m),
    decreases seeds.len(),
{
    if seeds.len() > 0 {
        lemma_seeded_grows(members, buffer, seeds.drop_last());
        let prev = seeded(members, buffer, seeds.drop_last()).0;
        assert forall|m: Member| has_member(prev, m) implies has_member(
            prev.push(seed_entry(seeds.last())),
            m,
        ) by {
            let j = choose|j: int| 0 <= j < prev.len() && prev[j].member == m;
            assert(prev.push(seed_entry(seeds.last()))[j] == prev[j]);
        }
    }
}

/// The state after the suspicion about `suspect` timed out.
pub open spec fn confirmed(st: VigieState, suspect: Member) -> VigieState {
    let i = first_index(st.members, suspect);
    if i >= 0 && st.members[i].status is Suspect {
        let e = MembershipEntry { status: MemberStatus::Confirm, ..st.members[i] };
        VigieState {
            members: st.members.update(i, e),
            buffer: put_event(
                st.buffer,
                MembershipEvent {
                    entry: e,
                    infection_number: infection_count(st.members.len()) as u64,
                },
            ),
            ..st
        }
    } else {
        st
    }
}

/// How many members are sampled to find up to `k` relays: one more, as this
/// node may be among them.
pub open spec fn sample_size(k: u16) -> u16 {
    if k < u16::MAX {
        (k + 1) as u16
    } else {
        k
    }
}

/// The relays taken from `sample`: up to `k` of the sampled members other than
/// node `id`, in the sample's order.
pub open spec fn relays(sample: Seq<MembershipEntry>, id: Member, k: u16) -> Seq<MembershipEntry> {
    others(sample, id).take(min_nat(k as nat, others(sample, id).len()) as int)
}

/// The requests, one sent to each relay, that it probe `awaited` for `id`.
pub open spec fn probe_requests(id: Member, awaited: Member, relays: Seq<MembershipEntry>) -> Seq<
    Effect,
> {
    relays.map_values(
        |e: MembershipEntry| Effect::PingRequest { src: id, dest: e.member, target: awaited },
    )
}

/// `sample` is `size` entries, or all there are, each taken once from those not about `awaited`.
pub open spec fn is_probe_sample(
    members: Seq<MembershipEntry>,
    awaited: Member,
    size: u16,
    sample: Seq<MembershipEntry>,
) -> bool {
    &&& sample.to_multiset().subset_of(others(members, awaited).to_multiset())
    &&& sample.len() == min_nat(size as nat, others(members, awaited).len())
}

/// After the probe timeout: nothing where no member is awaited; else members
/// other than the awaited one are sampled, and each of up to `k` of them other
/// than this node is asked to probe the awaited member.
pub open spec fn probes_requested(old_state: VigieState, new_state: VigieState) -> bool {
    match old_state.awaiting {
        None => new_state == old_state,
        Some(w) => exists|sample: Seq<MembershipEntry>|
            #![trigger is_probe_sample(old_state.members, w, sample_size(old_state.k), sample)]
            is_probe_sample(old_state.members, w, sample_size(old_state.k), sample) && new_state
                == (VigieState {
                effects: old_state.effects + probe_requests(
                    old_state.id,
                    w,
                    relays(sample, old_state.id, old_state.k),
                ),
                ..old_state
            }),
    }
}

} // verus!
