use vstd::prelude::*;

use crate::dissemination::put_event;
use crate::member::{Member, MemberStatus, MembershipEntry, MembershipEvent};
use crate::member_store::first_index;

verus! {

/// The number of halvings that bring `n` below 2: the floor of its base-2 logarithm.
pub open spec fn floor_log2(n: nat) -> nat
    decreases n,
{
    if n < 2 {
        0
    } else {
        1 + floor_log2(n / 2)
    }
}

/// The ceiling of the base-2 logarithm of `n`: the least `k` with `2^k >= n`.
pub open spec fn ceil_log2(n: nat) -> nat {
    if n <= 1 {
        0
    } else {
        floor_log2((n - 1) as nat) + 1
    }
}

/// How many times an event is gossiped in a cluster of `n` known members:
/// the ceiling of log2(n), and at least once.
pub open spec fn infection_count(n: nat) -> nat {
    if ceil_log2(n) == 0 {
        1
    } else {
        ceil_log2(n)
    }
}

pub proof fn lemma_floor_log2_le(n: nat)
    ensures
        floor_log2(n) <= n,
        n >= 1 ==> floor_log2(n) < n,
    decreases n,
{
    if n >= 2 {
        lemma_floor_log2_le(n / 2);
    }
}

/// The rank of a status among those that a member without a confirmed death can have.
pub open spec fn status_rank(s: MemberStatus) -> int {
    match s {
        MemberStatus::Alive => 0,
        MemberStatus::Suspect => 1,
        MemberStatus::Confirm => 2,
    }
}

/// Whether news `new` about a member overrides what is known, `known`, in the
/// update rules of the protocol (confirmed deaths apart, which merge).
pub open spec fn supersedes(new: MembershipEntry, known: MembershipEntry) -> bool {
    if new.status is Confirm {
        !(known.status is Confirm)
    } else if known.status is Confirm {
        false
    } else {
        new.incarnation_counter > known.incarnation_counter || (new.incarnation_counter
            == known.incarnation_counter && new.status is Suspect && known.status is Alive)
    }
}

/// The order of knowledge about one member: a confirmed death is above any
/// other news, confirmed deaths are ordered by incarnation, and other news
/// by incarnation, then suspicion above liveness.
pub open spec fn knowledge_le(a: MembershipEntry, b: MembershipEntry) -> bool {
    if a.status is Confirm {
        b.status is Confirm && a.incarnation_counter <= b.incarnation_counter
    } else if b.status is Confirm {
        true
    } else {
        a.incarnation_counter < b.incarnation_counter || (a.incarnation_counter
            == b.incarnation_counter && status_rank(a.status) <= status_rank(b.status))
    }
}

pub open spec fn max_u64(a: u64, b: u64) -> u64 {
    if a < b {
        b
    } else {
        a
    }
}

/// The entry that this node announces when it refutes a suspicion about itself.
pub open spec fn refutation(id: Member, incarnation: u64) -> MembershipEntry {
    MembershipEntry { member: id, incarnation_counter: incarnation, status: MemberStatus::Alive }
}

/// The incarnation a node announces when it refutes a suspicion at incarnation
/// `suspected` while it holds `own`: one above both, and `u64::MAX` once no
/// increment is left.
pub open spec fn refuted_incarnation(own: u64, suspected: u64) -> u64 {
    let m = max_u64(own, suspected);
    if m < u64::MAX {
        (m + 1) as u64
    } else {
        m
    }
}

/// The membership table and dissemination buffer after node `id` took in event `new`.
pub open spec fn updated(
    id: Member,
    members: Seq<MembershipEntry>,
    buffer: Seq<MembershipEvent>,
    new: MembershipEvent,
) -> (Seq<MembershipEntry>, Seq<MembershipEvent>) {
    let m = new.entry.member;
    if new.entry.status is Suspect && m == id {
        let i = first_index(members, id);
        let inc = refuted_incarnation(members[i].incarnation_counter, new.entry.incarnation_counter);
        (
            members.update(i, MembershipEntry { incarnation_counter: inc, ..members[i] }),
            put_event(
                buffer,
                MembershipEvent {
                    entry: refutation(id, inc),
                    infection_number: infection_count(members.len()) as u64,
                },
            ),
        )
    } else if first_index(members, m) < 0 {
        let grown = members.push(new.entry);
        (
            grown,
            put_event(
                buffer,
                MembershipEvent {
                    entry: new.entry,
                    infection_number: infection_count(grown.len()) as u64,
                },
            ),
        )
    } else {
        let i = first_index(members, m);
        let known = members[i];
        if new.entry.status is Confirm && known.status is Confirm {
            (
                members.update(
                    i,
                    MembershipEntry {
                        incarnation_counter: max_u64(
                            new.entry.incarnation_counter,
                            known.incarnation_counter,
                        ),
                        ..known
                    },
                ),
                buffer,
            )
        } else if supersedes(new.entry, known) {
            (
                members.update(i, new.entry),
                put_event(
                    buffer,
                    MembershipEvent {
                        entry: new.entry,
                        infection_number: infection_count(members.len()) as u64,
                    },
                ),
            )
        } else {
            (members, buffer)
        }
    }
}

/// The table and buffer after node `id` took in `events`, first to last.
pub open spec fn merged(
    id: Member,
    members: Seq<MembershipEntry>,
    buffer: Seq<MembershipEvent>,
    events: Seq<MembershipEvent>,
) -> (Seq<MembershipEntry>, Seq<MembershipEvent>)
    decreases events.len(),
{
    if events.len() == 0 {
        (members, buffer)
    } else {
        let prev = merged(id, members, buffer, events.drop_last());
        updated(id, prev.0, prev.1, events.last())
    }
}

/// The table and buffer after a member believed dead proved alive by pinging;
/// `src_event` is what it said of itself, if anything.
pub open spec fn resurrected(
    members: Seq<MembershipEntry>,
    buffer: Seq<MembershipEvent>,
    src: Member,
    src_event: Option<MembershipEvent>,
) -> (Seq<MembershipEntry>, Seq<MembershipEvent>) {
    let i = first_index(members, src);
    if i >= 0 && members[i].status is Confirm {
        match src_event {
            Some(e) => {
                let inc = e.entry.incarnation_counter;
                (
                    members.update(
                        i,
                        MembershipEntry {
                            status: MemberStatus::Alive,
                            incarnation_counter: inc,
                            ..members[i]
                        },
                    ),
                    put_event(
                        buffer,
                        MembershipEvent {
                            entry: MembershipEntry {
                                member: src,
                                incarnation_counter: inc,
                                status: MemberStatus::Alive,
                            },
                            infection_number: infection_count(members.len()) as u64,
                        },
                    ),
                )
            },
            None => (
                members.update(i, MembershipEntry { status: MemberStatus::Alive, ..members[i] }),
                buffer,
            ),
        }
    } else {
        (members, buffer)
    }
}

/// The entry a seed starts with.
pub open spec fn seed_entry(seed: Member) -> MembershipEntry {
    MembershipEntry { member: seed, incarnation_counter: 0, status: MemberStatus::Alive }
}

/// The table and buffer after the seeds were added, first to last.
pub open spec fn seeded(
    members: Seq<MembershipEntry>,
    buffer: Seq<MembershipEvent>,
    seeds: Seq<Member>,
) -> (Seq<MembershipEntry>, Seq<MembershipEvent>)
    decreases seeds.len(),
{
    if seeds.len() == 0 {
        (members, buffer)
    } else {
        let prev = seeded(members, buffer, seeds.drop_last());
        let grown = prev.0.push(seed_entry(seeds.last()));
        (
            grown,
            put_event(
                prev.1,
                MembershipEvent {
                    entry: seed_entry(seeds.last()),
                    infection_number: infection_count(grown.len()) as u64,
                },
            ),
        )
    }
}

} // verus!
