use vstd::prelude::*;

use crate::dissemination::{lemma_put_event, put_event, DisseminationBuffer, PendingRequests};
use crate::effects::{Effect, EffectStore};
use crate::error::VigieError;
use crate::member::{Member, MemberStatus, MembershipEntry, MembershipEvent};
use crate::member_store::MemberStore;
use crate::model::{infection_count, seed_entry, seeded};
use crate::vigie::{Vigie, VigieState};

verus! {

/// The settings a node is built from, as the contracts speak of them.
pub struct BuilderSettings {
    pub id: Member,
    pub members: Seq<MembershipEntry>,
    pub cursor: nat,
    pub effects: Seq<Effect>,
    pub seeds: Seq<Member>,
    pub k: u16,
    pub period: i64,
    pub timeout: i64,
    pub suspicion_timeout: i64,
}

/// Collects the settings of a node, then builds it and has it join the cluster.
#[derive(Debug)]
pub struct VigieBuilder<M, E> where M: MemberStore, E: EffectStore {
    id: Member,
    member_store: M,
    effect_store: E,
    seeds: Vec<Member>,
    k: u16,
    period: i64,
    timeout: i64,
    suspicion_timeout: i64,
}

impl<M, E> View for VigieBuilder<M, E> where M: MemberStore, E: EffectStore {
    type V = BuilderSettings;

    closed spec fn view(&self) -> BuilderSettings {
        BuilderSettings {
            id: self.id,
            members: self.member_store.entries(),
            cursor: self.member_store.cursor(),
            effects: self.effect_store.pending(),
            seeds: self.seeds@,
            k: self.k,
            period: self.period,
            timeout: self.timeout,
            suspicion_timeout: self.suspicion_timeout,
        }
    }
}

/// The number of events that fit on one message.
pub open spec fn event_slots() -> u64 {
    ((0xffff - 1024) / 32) as u64
}

/// The node that the settings `b` build, once it has joined: it knows itself
/// as alive at incarnation 0, and the seeds, and gossips about all of them.
pub open spec fn joined(b: BuilderSettings) -> VigieState {
    let members = b.members.push(seed_entry(b.id));
    let buffer = put_event(
        Seq::empty(),
        MembershipEvent {
            entry: seed_entry(b.id),
            infection_number: infection_count(members.len()) as u64,
        },
    );
    let s = seeded(members, buffer, b.seeds);
    VigieState {
        members: s.0,
        cursor: b.cursor,
        effects: b.effects,
        buffer: s.1,
        pending: Map::empty(),
        seeds: b.seeds,
        id: b.id,
        k: b.k,
        period: b.period,
        timeout: b.timeout,
        suspicion_timeout: b.suspicion_timeout,
        period_start: 0,
        awaiting: None,
        event_slots: event_slots(),
    }
}

impl<M, E> VigieBuilder<M, E> where M: MemberStore, E: EffectStore {
    /// A builder with the default settings: probes are asked of 3 members, a
    /// period lasts 1000 ms, the probe timeout is 500 ms and the suspicion
    /// timeout 1500 ms.
    pub fn new(id: Member, member_store: M, effect_store: E) -> (b: Self)
        ensures
            b@ == (BuilderSettings {
                id,
                members: member_store.entries(),
                cursor: member_store.cursor(),
                effects: effect_store.pending(),
                seeds: Seq::empty(),
                k: 3,
                period: 1000,
                timeout: 500,
                suspicion_timeout: 1500,
            }),
    {
        Self {
            id,
            member_store,
            effect_store,
            seeds: Vec::new(),
            k: 3,
            period: 1000,
            timeout: 500,
            suspicion_timeout: 1500,
        }
    }

    pub fn seed(self, seed: Member) -> (b: Self)
        ensures
            b@ == (BuilderSettings { seeds: self@.seeds.push(seed), ..self@ }),
    {
        let mut b = self;
        b.seeds.push(seed);
        b
    }

    pub fn k(self, k: u16) -> (b: Self)
        ensures
            b@ == (BuilderSettings { k, ..self@ }),
    {
        let mut b = self;
        b.k = k;
        b
    }

    pub fn period(self, period: i64) -> (b: Self)
        ensures
            b@ == (BuilderSettings { period, ..self@ }),
    {
        let mut b = self;
        b.period = period;
        b
    }

    pub fn timeout(self, timeout: i64) -> (b: Self)
        ensures
            b@ == (BuilderSettings { timeout, ..self@ }),
    {
        let mut b = self;
        b.timeout = timeout;
        b
    }

    pub fn suspicion_timeout(self, suspicion_timeout: i64) -> (b: Self)
        ensures
            b@ == (BuilderSettings { suspicion_timeout, ..self@ }),
    {
        let mut b = self;
        b.suspicion_timeout = suspicion_timeout;
        b
    }

    /// Builds the node and has it join: it always succeeds.
    pub fn build(self) -> (r: Result<Vigie<M, E>, VigieError>)
        ensures
            r is Ok,
            r->Ok_0@ == joined(self@),
            r->Ok_0@.wf(),
    {
        let VigieBuilder {
            id,
            member_store,
            effect_store,
            seeds,
            k,
            period,
            timeout,
            suspicion_timeout,
        } = self;
        let mut vigie = Vigie {
            member_store,
            effect_store,
            dissemination_buffer: DisseminationBuffer::new(),
            pending_ping_req: PendingRequests::new(),
            seeds,
            id,
            k,
            period,
            timeout,
            suspicion_timeout,
            period_start_timestamp: 0,
            ack_member_await: None,
            event_slots: ((u16::MAX - 1024) / 32) as u64,
        };
        proof {
            vigie.lemma_view();
        }
        Self::join(&mut vigie)?;
        Ok(vigie)
    }

    /// Has a node that was just built announce itself and learn its seeds.
    fn join(vigie: &mut Vigie<M, E>) -> (r: Result<(), VigieError>)
        requires
            old(vigie)@.buffer == Seq::<MembershipEvent>::empty(),
        ensures
            r is Ok,
            final(vigie)@ == ({
                let members = old(vigie)@.members.push(seed_entry(old(vigie)@.id));
                let buffer = put_event(
                    Seq::empty(),
                    MembershipEvent {
                        entry: seed_entry(old(vigie)@.id),
                        infection_number: infection_count(members.len()) as u64,
                    },
                );
                let s = seeded(members, buffer, old(vigie)@.seeds);
                VigieState { members: s.0, buffer: s.1, ..old(vigie)@ }
            }),
            has_member_and_gossip_wf(final(vigie)@),
    {
        let entry = MembershipEntry {
            member: vigie.id,
            incarnation_counter: 0,
            status: MemberStatus::Alive,
        };
        proof {
            vigie.lemma_view();
        }
        vigie.member_store.insert(entry);
        let e = MembershipEvent::new(
            entry,
            Vigie::<M, E>::compute_infection_count(vigie.member_store.len()),
        );
        proof {
            vigie.lemma_view();
            lemma_put_event(Seq::empty(), e);
            let grown = vigie@.members;
            assert(grown[grown.len() - 1].member == vigie.id);
        }
        vigie.dissemination_buffer.put(e);
        proof {
            vigie.lemma_view();
        }
        vigie.seeds();
        Ok(())
    }
}

/// What `build` needs of a node that joined to be well formed.
pub open spec fn has_member_and_gossip_wf(st: VigieState) -> bool {
    &&& crate::member_store::has_member(st.members, st.id)
    &&& crate::dissemination::unique_members(st.buffer)
    &&& crate::dissemination::all_infectious(st.buffer)
}

} // verus!
