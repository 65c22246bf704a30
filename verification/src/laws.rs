use vstd::prelude::*;

use crate::dissemination::{
    after_selection, all_infectious, event_entries, event_for, event_index, is_grab, is_selection,
    lemma_event_entries, lemma_event_index, lemma_filter_from, lemma_filter_unique, min_nat,
    selected_events, spend_selected, spent, still_infectious, unique_members,
};
use crate::member::{Member, MemberStatus, MembershipEntry, MembershipEvent};
use crate::member_store::{
    find_entry, first_index, has_member, lemma_first_index, lemma_first_index_push,
    lemma_first_index_update,
};
use crate::dissemination::requester_of;
use crate::message::Message;
use crate::member_store::others;
use crate::vigie::{ingested, is_ack, is_ping, is_probe_sample, relays, sample_size, VigieState};
use crate::effects::Effect;
use crate::model::resurrected;
use crate::model::{
    infection_count, knowledge_le, merged, refutation, refuted_incarnation, supersedes, updated,
};

verus! {

/// No event suspects member `id`.
pub open spec fn no_suspicion_of(id: Member, events: Seq<MembershipEvent>) -> bool {
    forall|i: int|
        0 <= i < events.len() ==> !(#[trigger] events[i].entry.member == id && events[i].entry.status
            is Suspect)
}

/// `r` is the greatest knowledge about `x` among `prior` and the events about `x`.
pub open spec fn is_knowledge_max(
    prior: Option<MembershipEntry>,
    events: Seq<MembershipEvent>,
    x: Member,
    r: Option<MembershipEntry>,
) -> bool {
    match r {
        None => prior is None && forall|i: int| 0 <= i < events.len() ==> events[i].entry.member != x,
        Some(v) => {
            &&& v.member == x
            &&& (prior == Some(v) || exists|i: int|
                0 <= i < events.len() && #[trigger] events[i].entry == v)
            &&& (prior matches Some(p) ==> knowledge_le(p, v))
            &&& forall|i: int|
                0 <= i < events.len() && #[trigger] events[i].entry.member == x ==> knowledge_le(
                    events[i].entry,
                    v,
                )
        },
    }
}

/// The first entry about `x` in a table is about `x`.
proof fn lemma_find_entry(s: Seq<MembershipEntry>, x: Member)
    ensures
        find_entry(s, x) matches Some(v) ==> v.member == x,
        find_entry(s, x) is None <==> !has_member(s, x),
{
    lemma_first_index(s, x);
}

/// Taking in one event that is no suspicion of `id` joins it into the
/// knowledge about its member and changes nothing else.
proof fn lemma_updated_find(
    id: Member,
    members: Seq<MembershipEntry>,
    buffer: Seq<MembershipEvent>,
    e: MembershipEvent,
    x: Member,
)
    requires
        !(e.entry.member == id && e.entry.status is Suspect),
    ensures
        x != e.entry.member ==> find_entry(updated(id, members, buffer, e).0, x) == find_entry(
            members,
            x,
        ),
        x == e.entry.member ==> is_knowledge_max(
            find_entry(members, x),
            seq![e],
            x,
            find_entry(updated(id, members, buffer, e).0, x),
        ),
        has_member(members, id) ==> has_member(updated(id, members, buffer, e).0, id),
{
    let m = e.entry.member;
    let t = updated(id, members, buffer, e).0;
    lemma_first_index(members, m);
    lemma_first_index(members, x);
    lemma_first_index(members, id);
    assert(seq![e][0] == e);
    if first_index(members, m) < 0 {
        lemma_first_index_push(members, e.entry, x);
        lemma_first_index_push(members, e.entry, id);
        lemma_first_index(t, x);
        lemma_first_index(t, id);
    } else {
        let i = first_index(members, m);
        let known = members[i];
        lemma_first_index_update(members, i, t[i], x);
        lemma_first_index_update(members, i, t[i], id);
        lemma_first_index(t, x);
        lemma_first_index(t, id);
        if x == m {
            if e.entry.status is Confirm && known.status is Confirm {
                if e.entry.incarnation_counter >= known.incarnation_counter {
                    assert(t[i] == e.entry);
                }
            }
        }
    }
}

/// Merging events that suspect no one as this node: what the table then says
/// of each member is the greatest knowledge among what it said before and
/// the events received about that member, whatever their order.
pub proof fn law_merge_keeps_greatest_knowledge(
    id: Member,
    members: Seq<MembershipEntry>,
    buffer: Seq<MembershipEvent>,
    events: Seq<MembershipEvent>,
    x: Member,
)
    requires
        no_suspicion_of(id, events),
    ensures
        is_knowledge_max(find_entry(members, x), events, x, find_entry(merged(id, members, buffer, events).0, x)),
    decreases events.len(),
{
    if events.len() == 0 {
        lemma_find_entry(members, x);
        if find_entry(members, x) is Some {
            let v = find_entry(members, x)->0;
            assert(knowledge_le(v, v));
        }
    } else {
        let d = events.drop_last();
        let e = events.last();
        assert(no_suspicion_of(id, d)) by {
            assert forall|i: int| 0 <= i < d.len() implies !(#[trigger] d[i].entry.member == id
                && d[i].entry.status is Suspect) by {
                assert(d[i] == events[i]);
            }
        }
        assert(events[events.len() - 1] == e);
        law_merge_keeps_greatest_knowledge(id, members, buffer, d, x);
        let prev = merged(id, members, buffer, d);
        lemma_updated_find(id, prev.0, prev.1, e, x);
        let before = find_entry(members, x);
        let mid = find_entry(prev.0, x);
        let after = find_entry(merged(id, members, buffer, events).0, x);
        assert(merged(id, members, buffer, events) == updated(id, prev.0, prev.1, e));
        if x != e.entry.member {
            assert(after == mid);
            if let Some(v) = mid {
                if before != Some(v) {
                    let i = choose|i: int| 0 <= i < d.len() && #[trigger] d[i].entry == v;
                    assert(events[i].entry == v);
                }
                assert forall|i: int| 0 <= i < events.len() && #[trigger] events[i].entry.member
                    == x implies knowledge_le(events[i].entry, v) by {
                    assert(events[i] == d[i]);
                }
            } else {
                assert forall|i: int| 0 <= i < events.len() implies events[i].entry.member != x by {
                    if i < d.len() {
                        assert(events[i] == d[i]);
                    }
                }
            }
        } else {
            lemma_find_entry(prev.0, x);
            let v = after->0;
            // `after` is the greater of `mid` and `e`, and `mid` is the greatest so far.
            assert(seq![e][0] == e);
            match mid {
                None => {
                    assert(v == e.entry);
                    assert forall|i: int| 0 <= i < events.len() && #[trigger] events[i].entry.member
                        == x implies knowledge_le(events[i].entry, v) by {
                        if i < d.len() {
                            assert(events[i] == d[i]);
                        } else {
                            assert(events[i] == e);
                        }
                    }
                    assert(events[events.len() - 1].entry == v);
                },
                Some(w) => {
                    assert(knowledge_le(w, v));
                    if let Some(p) = before {
                        assert(knowledge_le(p, w));
                        lemma_knowledge_le_transitive(p, w, v);
                    }
                    assert forall|i: int| 0 <= i < events.len() && #[trigger] events[i].entry.member
                        == x implies knowledge_le(events[i].entry, v) by {
                        if i < d.len() {
                            assert(events[i] == d[i]);
                            assert(knowledge_le(d[i].entry, w));
                            lemma_knowledge_le_transitive(d[i].entry, w, v);
                        } else {
                            assert(events[i] == e);
                        }
                    }
                    if v == w {
                        if before != Some(w) {
                            let i = choose|i: int| 0 <= i < d.len() && #[trigger] d[i].entry == w;
                            assert(events[i].entry == w);
                        }
                    } else {
                        assert(v == e.entry);
                        assert(events[events.len() - 1].entry == v);
                    }
                },
            }
        }
    }
}

pub proof fn lemma_knowledge_le_transitive(a: MembershipEntry, b: MembershipEntry, c: MembershipEntry)
    requires
        knowledge_le(a, b),
        knowledge_le(b, c),
    ensures
        knowledge_le(a, c),
{
}

/// Two pieces of knowledge about one member that are each at most the other are equal.
pub proof fn lemma_knowledge_le_antisymmetric(a: MembershipEntry, b: MembershipEntry)
    requires
        knowledge_le(a, b),
        knowledge_le(b, a),
        a.member == b.member,
    ensures
        a == b,
{
    assert(a.status == b.status) by {
        match a.status {
            MemberStatus::Alive => {},
            MemberStatus::Suspect => {},
            MemberStatus::Confirm => {},
        }
    }
}

/// Convergence: two nodes in the same state that receive the same events, in
/// any order and with any repetition, end up with the same knowledge about
/// every member, so long as no event suspects the node itself.
pub proof fn law_merge_converges(
    id: Member,
    members: Seq<MembershipEntry>,
    buffer: Seq<MembershipEvent>,
    events_a: Seq<MembershipEvent>,
    events_b: Seq<MembershipEvent>,
    x: Member,
)
    requires
        no_suspicion_of(id, events_a),
        no_suspicion_of(id, events_b),
        forall|e: MembershipEvent| events_a.contains(e) <==> events_b.contains(e),
    ensures
        find_entry(merged(id, members, buffer, events_a).0, x) == find_entry(
            merged(id, members, buffer, events_b).0,
            x,
        ),
{
    law_merge_keeps_greatest_knowledge(id, members, buffer, events_a, x);
    law_merge_keeps_greatest_knowledge(id, members, buffer, events_b, x);
    let prior = find_entry(members, x);
    let ra = find_entry(merged(id, members, buffer, events_a).0, x);
    let rb = find_entry(merged(id, members, buffer, events_b).0, x);
    match (ra, rb) {
        (Some(va), Some(vb)) => {
            // each is below the other, since each comes from the shared knowledge
            if prior != Some(va) {
                let i = choose|i: int| 0 <= i < events_a.len() && #[trigger] events_a[i].entry == va;
                assert(events_a.contains(events_a[i]));
                let j = choose|j: int| 0 <= j < events_b.len() && events_b[j] == events_a[i];
                assert(events_b[j].entry.member == x);
            }
            if prior != Some(vb) {
                let i = choose|i: int| 0 <= i < events_b.len() && #[trigger] events_b[i].entry == vb;
                assert(events_b.contains(events_b[i]));
                let j = choose|j: int| 0 <= j < events_a.len() && events_a[j] == events_b[i];
                assert(events_a[j].entry.member == x);
            }
            lemma_knowledge_le_antisymmetric(va, vb);
        },
        (Some(va), None) => {
            let i = choose|i: int| 0 <= i < events_a.len() && #[trigger] events_a[i].entry == va;
            assert(events_a.contains(events_a[i]));
            let j = choose|j: int| 0 <= j < events_b.len() && events_b[j] == events_a[i];
        },
        (None, Some(vb)) => {
            let i = choose|i: int| 0 <= i < events_b.len() && #[trigger] events_b[i].entry == vb;
            assert(events_b.contains(events_b[i]));
            let j = choose|j: int| 0 <= j < events_a.len() && events_a[j] == events_b[i];
        },
        (None, None) => {},
    }
}

/// Monotonicity: taking in any event never lowers the knowledge the table
/// holds about any member, this node included.
pub proof fn law_update_is_monotone(
    id: Member,
    members: Seq<MembershipEntry>,
    buffer: Seq<MembershipEvent>,
    e: MembershipEvent,
    x: Member,
)
    requires
        has_member(members, id),
    ensures
        find_entry(members, x) matches Some(a) ==> find_entry(
            updated(id, members, buffer, e).0,
            x,
        ) matches Some(b) && knowledge_le(a, b),
{
    if e.entry.member == id && e.entry.status is Suspect {
        lemma_first_index(members, id);
        lemma_first_index(members, x);
        let i = first_index(members, id);
        let t = updated(id, members, buffer, e).0;
        lemma_first_index_update(members, i, t[i], x);
        lemma_first_index(t, x);
        if let Some(a) = find_entry(members, x) {
            assert(knowledge_le(a, a));
        }
    } else {
        lemma_updated_find(id, members, buffer, e, x);
        if let Some(a) = find_entry(members, x) {
            assert(knowledge_le(a, a));
        }
    }
}

/// Idempotence: taking in the same event twice leaves the membership table as
/// taking it in once did, unless the event suspects this node (each such
/// suspicion is refuted anew, one incarnation higher).
pub proof fn law_update_is_idempotent(
    id: Member,
    members: Seq<MembershipEntry>,
    buffer: Seq<MembershipEvent>,
    e: MembershipEvent,
)
    requires
        has_member(members, id),
        !(e.entry.member == id && e.entry.status is Suspect),
    ensures
        updated(
            id,
            updated(id, members, buffer, e).0,
            updated(id, members, buffer, e).1,
            e,
        ).0 == updated(id, members, buffer, e).0,
{
    let once = updated(id, members, buffer, e);
    let twice = updated(id, once.0, once.1, e);
    let m = e.entry.member;
    lemma_first_index(members, m);
    lemma_first_index(members, id);
    if first_index(members, m) < 0 {
        lemma_first_index_push(members, e.entry, m);
        let k = members.len() as int;
        assert(once.0[k] == e.entry);
        if e.entry.status is Confirm {
            assert(twice.0 =~= once.0);
        } else {
            assert(!supersedes(e.entry, e.entry));
        }
    } else {
        let i = first_index(members, m);
        lemma_first_index_update(members, i, once.0[i], m);
        assert(twice.0 =~= once.0);
    }
}

/// Refutation: a node that hears itself suspected raises its incarnation above
/// both its own and the suspicion's (where an increment is left), records it,
/// and announces itself alive with it.
pub proof fn law_suspicion_is_refuted(
    id: Member,
    members: Seq<MembershipEntry>,
    buffer: Seq<MembershipEvent>,
    e: MembershipEvent,
)
    requires
        e.entry.member == id,
        e.entry.status is Suspect,
        has_member(members, id),
        crate::dissemination::unique_members(buffer),
    ensures
        find_entry(members, id) matches Some(own) && ({
            let inc = refuted_incarnation(own.incarnation_counter, e.entry.incarnation_counter);
            &&& own.incarnation_counter < u64::MAX ==> inc > own.incarnation_counter
            &&& e.entry.incarnation_counter < u64::MAX ==> inc > e.entry.incarnation_counter
            &&& event_for(updated(id, members, buffer, e).1, id) == Some(
                MembershipEvent {
                    entry: refutation(id, inc),
                    infection_number: infection_count(members.len()) as u64,
                },
            )
            &&& find_entry(updated(id, members, buffer, e).0, id) == Some(
                MembershipEntry { incarnation_counter: inc, ..own },
            )
        }),
{
    lemma_first_index(members, id);
    let i = first_index(members, id);
    let t = updated(id, members, buffer, e).0;
    lemma_first_index_update(members, i, t[i], id);
    lemma_first_index(t, id);
    let inc = refuted_incarnation(members[i].incarnation_counter, e.entry.incarnation_counter);
    crate::dissemination::lemma_put_event(
        buffer,
        MembershipEvent {
            entry: refutation(id, inc),
            infection_number: infection_count(members.len()) as u64,
        },
    );
}

/// Gossip bounds: a message carries at most `slots` events, only live ones
/// taken from the buffer, and what stays in the buffer is still live.
pub proof fn law_grab_bounds(
    s: Seq<MembershipEvent>,
    slots: nat,
    out: Seq<MembershipEvent>,
    rest: Seq<MembershipEvent>,
)
    requires
        is_grab(s, slots, out, rest),
        all_infectious(s),
    ensures
        out.len() <= slots,
        out.len() == min_nat(slots, s.len()),
        forall|i: int| 0 <= i < out.len() ==> s.contains(#[trigger] out[i]),
        forall|i: int| 0 <= i < out.len() ==> #[trigger] out[i].infection_number >= 1,
        all_infectious(rest),
{
    let sel = choose|sel: Seq<int>|
        is_selection(s, slots, sel) && out == crate::dissemination::selected_events(s, sel)
            && rest == crate::dissemination::after_selection(s, sel);
    assert forall|i: int| 0 <= i < out.len() implies s.contains(#[trigger] out[i]) by {
        assert(out[i] == s[sel[i]]);
    }
    lemma_filter_from(spend_selected(s, sel), |e: MembershipEvent| still_infectious(e));
}

/// No two entries of the table are about the same member.
pub open spec fn unique_table(s: Seq<MembershipEntry>) -> bool {
    forall|i: int, j: int| 0 <= i < j < s.len() ==> s[i].member != s[j].member
}

proof fn lemma_updated_unique(
    id: Member,
    members: Seq<MembershipEntry>,
    buffer: Seq<MembershipEvent>,
    e: MembershipEvent,
)
    requires
        unique_table(members),
        has_member(members, id),
    ensures
        unique_table(updated(id, members, buffer, e).0),
        has_member(updated(id, members, buffer, e).0, id),
{
    let m = e.entry.member;
    lemma_first_index(members, m);
    lemma_first_index(members, id);
    let t = updated(id, members, buffer, e).0;
    if e.entry.status is Suspect && m == id {
        let i = first_index(members, id);
        assert forall|k: int| 0 <= k < t.len() implies t[k].member == members[k].member by {}
        assert(t[i].member == id);
        assert(unique_table(t));
    } else if first_index(members, m) < 0 {
        assert(t[members.len() as int].member == m);
        let j = first_index(members, id);
        assert(t[j].member == id);
        assert(unique_table(t));
    } else {
        let i = first_index(members, m);
        assert forall|k: int| 0 <= k < t.len() implies t[k].member == members[k].member by {}
        let j = first_index(members, id);
        assert(t[j].member == id);
        assert(unique_table(t));
    }
}

proof fn lemma_merged_unique(
    id: Member,
    members: Seq<MembershipEntry>,
    buffer: Seq<MembershipEvent>,
    events: Seq<MembershipEvent>,
)
    requires
        unique_table(members),
        has_member(members, id),
    ensures
        unique_table(merged(id, members, buffer, events).0),
        has_member(merged(id, members, buffer, events).0, id),
    decreases events.len(),
{
    if events.len() > 0 {
        lemma_merged_unique(id, members, buffer, events.drop_last());
        let prev = merged(id, members, buffer, events.drop_last());
        lemma_updated_unique(id, prev.0, prev.1, events.last());
    }
}

proof fn lemma_unique_contains(s: Seq<MembershipEntry>, v: MembershipEntry)
    requires
        unique_table(s),
    ensures
        s.contains(v) <==> find_entry(s, v.member) == Some(v),
{
    lemma_first_index(s, v.member);
    if s.contains(v) {
        let j = choose|j: int| 0 <= j < s.len() && s[j] == v;
        let f = first_index(s, v.member);
        if f != j {
            assert(s[f].member == s[j].member);
        }
    }
    if find_entry(s, v.member) == Some(v) {
        assert(s[first_index(s, v.member)] == v);
    }
}

proof fn lemma_unique_count(s: Seq<MembershipEntry>, v: MembershipEntry)
    requires
        unique_table(s),
    ensures
        s.to_multiset().count(v) == if s.contains(v) { 1nat } else { 0nat },
{
    broadcast use vstd::seq_lib::group_to_multiset_ensures;

    assert(s.no_duplicates());
    if s.contains(v) {
        s.lemma_multiset_has_no_duplicates();
    }
}

/// Convergence of whole tables: starting from a table with one entry per
/// member, two nodes that receive the same events, in any order and with any
/// repetition, end up with tables that hold the same entries, so long as no
/// event suspects the node itself.
pub proof fn law_merge_converges_tables(
    id: Member,
    members: Seq<MembershipEntry>,
    buffer: Seq<MembershipEvent>,
    events_a: Seq<MembershipEvent>,
    events_b: Seq<MembershipEvent>,
)
    requires
        unique_table(members),
        has_member(members, id),
        no_suspicion_of(id, events_a),
        no_suspicion_of(id, events_b),
        forall|e: MembershipEvent| events_a.contains(e) <==> events_b.contains(e),
    ensures
        merged(id, members, buffer, events_a).0.to_multiset() == merged(
            id,
            members,
            buffer,
            events_b,
        ).0.to_multiset(),
{
    let ta = merged(id, members, buffer, events_a).0;
    let tb = merged(id, members, buffer, events_b).0;
    lemma_merged_unique(id, members, buffer, events_a);
    lemma_merged_unique(id, members, buffer, events_b);
    assert forall|v: MembershipEntry| ta.to_multiset().count(v) == tb.to_multiset().count(v) by {
        law_merge_converges(id, members, buffer, events_a, events_b, v.member);
        lemma_unique_contains(ta, v);
        lemma_unique_contains(tb, v);
        lemma_unique_count(ta, v);
        lemma_unique_count(tb, v);
    }
    assert(ta.to_multiset() =~= tb.to_multiset());
}

proof fn lemma_event_for_push(t: Seq<MembershipEvent>, x: MembershipEvent, m: Member)
    requires
        event_index(t, x.entry.member) < 0,
    ensures
        event_for(t.push(x), m) == if m == x.entry.member {
            Some(x)
        } else {
            event_for(t, m)
        },
{
    lemma_event_entries(t);
    lemma_event_entries(t.push(x));
    assert(event_entries(t.push(x)) =~= event_entries(t).push(x.entry));
    lemma_first_index_push(event_entries(t), x.entry, m);
    lemma_event_index(t, m);
    lemma_event_index(t.push(x), m);
    if event_index(t, m) >= 0 {
        assert(t.push(x)[event_index(t, m)] == t[event_index(t, m)]);
    }
}

/// In a buffer with one event per member, filtering keeps the event about
/// each member exactly where it passes the filter.
proof fn lemma_event_for_filter(
    t: Seq<MembershipEvent>,
    pred: spec_fn(MembershipEvent) -> bool,
    m: Member,
)
    requires
        unique_members(t),
    ensures
        event_for(t.filter(pred), m) == match event_for(t, m) {
            Some(e) => if pred(e) {
                Some(e)
            } else {
                None
            },
            None => None,
        },
    decreases t.len(),
{
    reveal(Seq::filter);
    lemma_event_index(t, m);
    if t.len() == 0 {
        lemma_event_index(t.filter(pred), m);
    } else {
        let d = t.drop_last();
        let x = t.last();
        assert(unique_members(d));
        lemma_event_for_filter(d, pred, m);
        lemma_filter_unique(d, pred);
        lemma_event_index(d, x.entry.member);
        lemma_event_index(d, m);
        assert(t =~= d.push(x));
        lemma_event_for_push(d, x, m);
        if pred(x) {
            lemma_filter_from(d, pred);
            lemma_event_index(d.filter(pred), x.entry.member);
            if event_index(d.filter(pred), x.entry.member) >= 0 {
                let k = event_index(d.filter(pred), x.entry.member);
                let j = choose|j: int| 0 <= j < d.len() && d.filter(pred)[k] == d[j];
                assert(d[j].entry.member == x.entry.member);
                assert(t[j] == d[j]);
            }
            lemma_event_for_push(d.filter(pred), x, m);
        }
    }
}

/// Gossiping spends one transmission of each event it hands out and no other:
/// an event with transmissions left stays, one fewer; one with none left goes;
/// events not handed out stay as they were.
pub proof fn law_grab_spends_once(
    s: Seq<MembershipEvent>,
    slots: nat,
    out: Seq<MembershipEvent>,
    rest: Seq<MembershipEvent>,
    m: Member,
)
    requires
        is_grab(s, slots, out, rest),
        unique_members(s),
        all_infectious(s),
    ensures
        (exists|i: int| 0 <= i < out.len() && #[trigger] out[i].entry.member == m) ==> (event_for(
            s,
            m,
        ) matches Some(e) && if e.infection_number > 1 {
            event_for(rest, m) == Some(spent(e))
        } else {
            event_for(rest, m) is None
        }),
        !(exists|i: int| 0 <= i < out.len() && #[trigger] out[i].entry.member == m) ==> event_for(
            rest,
            m,
        ) == event_for(s, m),
{
    let sel = choose|sel: Seq<int>|
        is_selection(s, slots, sel) && out == selected_events(s, sel) && rest == after_selection(
            s,
            sel,
        );
    let sp = spend_selected(s, sel);
    assert(unique_members(sp)) by {
        assert forall|i: int, j: int| 0 <= i < j < sp.len() implies sp[i].entry.member
            != sp[j].entry.member by {
            assert(sp[i].entry == s[i].entry);
            assert(sp[j].entry == s[j].entry);
        }
    }
    lemma_event_for_filter(sp, |e: MembershipEvent| still_infectious(e), m);
    lemma_event_index(s, m);
    lemma_event_index(sp, m);
    lemma_event_entries(s);
    lemma_event_entries(sp);
    assert(event_entries(sp) =~= event_entries(s));
    assert(event_index(sp, m) == event_index(s, m));
    assert(rest == sp.filter(|e: MembershipEvent| still_infectious(e)));
    if event_index(s, m) >= 0 {
        let p = event_index(s, m);
        assert(event_for(sp, m) == Some(sp[p]));
        assert(sp[p] == if sel.contains(p) { spent(s[p]) } else { s[p] });
        assert(s[p].infection_number >= 1);
        if sel.contains(p) {
            let i = choose|i: int| 0 <= i < sel.len() && sel[i] == p;
            assert(out[i] == s[p]);
        }
        if exists|i: int| 0 <= i < out.len() && #[trigger] out[i].entry.member == m {
            let i = choose|i: int| 0 <= i < out.len() && #[trigger] out[i].entry.member == m;
            assert(out[i] == s[sel[i]]);
            assert(sel[i] == p);
            assert(sel.contains(p));
        }
    } else {
        if exists|i: int| 0 <= i < out.len() && #[trigger] out[i].entry.member == m {
            let i = choose|i: int| 0 <= i < out.len() && #[trigger] out[i].entry.member == m;
            assert(out[i] == s[sel[i]]);
        }
    }
}

/// Convergence at the node: two nodes in the same state, with one entry per
/// member, that take in acknowledgements carrying the same events in any order
/// (from a member for which no probe is pending) end up with the same table,
/// so long as no event suspects the node itself.
pub proof fn law_nodes_converge(
    st: VigieState,
    src: Member,
    events_a: Vec<MembershipEvent>,
    events_b: Vec<MembershipEvent>,
    after_a: VigieState,
    after_b: VigieState,
)
    requires
        st.wf(),
        unique_table(st.members),
        requester_of(st.pending, src) is None,
        ingested(st, Message::Ack { src, dest: st.id, events: events_a }, after_a),
        ingested(st, Message::Ack { src, dest: st.id, events: events_b }, after_b),
        no_suspicion_of(st.id, events_a@),
        no_suspicion_of(st.id, events_b@),
        forall|e: MembershipEvent| events_a@.contains(e) <==> events_b@.contains(e),
    ensures
        after_a.members.to_multiset() == after_b.members.to_multiset(),
{
    law_merge_converges_tables(st.id, st.members, st.buffer, events_a@, events_b@);
}

/// Some event that `out` carries is about `m`.
pub open spec fn carries(out: Seq<MembershipEvent>, m: Member) -> bool {
    exists|i: int| 0 <= i < out.len() && #[trigger] out[i].entry.member == m
}

/// How many of the messages `outs` carried an event about `m`.
pub open spec fn times_carried(outs: Seq<Seq<MembershipEvent>>, m: Member) -> nat
    decreases outs.len(),
{
    if outs.len() == 0 {
        0
    } else {
        times_carried(outs.drop_last(), m) + if carries(outs.last(), m) {
            1nat
        } else {
            0nat
        }
    }
}

/// How many more times the buffer `s` will carry news about `m`.
pub open spec fn transmissions_left(s: Seq<MembershipEvent>, m: Member) -> nat {
    match event_for(s, m) {
        Some(e) => e.infection_number as nat,
        None => 0,
    }
}

/// `states` are the buffers before and after each message of `outs` took its
/// events, with no news taken in between.
pub open spec fn is_gossip_run(
    states: Seq<Seq<MembershipEvent>>,
    slots: nat,
    outs: Seq<Seq<MembershipEvent>>,
) -> bool {
    &&& states.len() == outs.len() + 1
    &&& forall|i: int|
        0 <= i < outs.len() ==> #[trigger] is_grab(states[i], slots, outs[i], states[i + 1])
}

proof fn lemma_grab_keeps_unique(
    s: Seq<MembershipEvent>,
    slots: nat,
    out: Seq<MembershipEvent>,
    rest: Seq<MembershipEvent>,
)
    requires
        is_grab(s, slots, out, rest),
        unique_members(s),
    ensures
        unique_members(rest),
{
    let sel = choose|sel: Seq<int>|
        is_selection(s, slots, sel) && out == selected_events(s, sel) && rest == after_selection(
            s,
            sel,
        );
    let sp = spend_selected(s, sel);
    assert(unique_members(sp)) by {
        assert forall|i: int, j: int| 0 <= i < j < sp.len() implies sp[i].entry.member
            != sp[j].entry.member by {
            assert(sp[i].entry == s[i].entry);
            assert(sp[j].entry == s[j].entry);
        }
    }
    lemma_filter_unique(sp, |e: MembershipEvent| still_infectious(e));
}

/// The dissemination bound: over any run of gossip with no news taken in, the
/// number of messages that carry news about a member plus the transmissions
/// left for it is the number of transmissions it had at the start. News is
/// thus carried at most as many times as its infection number, which is the
/// ceiling of log2 of the table size when it was learnt, and then dropped.
pub proof fn law_dissemination_bound(
    states: Seq<Seq<MembershipEvent>>,
    slots: nat,
    outs: Seq<Seq<MembershipEvent>>,
    m: Member,
)
    requires
        is_gossip_run(states, slots, outs),
        unique_members(states[0]),
        all_infectious(states[0]),
    ensures
        times_carried(outs, m) + transmissions_left(states[states.len() - 1], m)
            == transmissions_left(states[0], m),
        unique_members(states[states.len() - 1]),
        all_infectious(states[states.len() - 1]),
    decreases outs.len(),
{
    if outs.len() > 0 {
        let k = outs.len() - 1;
        let prev_states = states.drop_last();
        let prev_outs = outs.drop_last();
        assert forall|i: int| 0 <= i < prev_outs.len() implies #[trigger] is_grab(
            prev_states[i],
            slots,
            prev_outs[i],
            prev_states[i + 1],
        ) by {
            assert(is_grab(states[i], slots, outs[i], states[i + 1]));
        }
        assert(is_gossip_run(prev_states, slots, prev_outs));
        law_dissemination_bound(prev_states, slots, prev_outs, m);
        let before = states[k];
        let after = states[k + 1];
        assert(prev_states[prev_states.len() - 1] == before);
        assert(is_grab(before, slots, outs[k], after));
        law_grab_spends_once(before, slots, outs[k], after, m);
        law_grab_bounds(before, slots, outs[k], after);
        lemma_grab_keeps_unique(before, slots, outs[k], after);
        assert(outs.last() == outs[k]);
    }
}

/// Indirect probing asks no more than `k` relays, and each relay is a member
/// of the table other than the awaited member and other than this node.
pub proof fn law_relays_are_other_members(
    members: Seq<MembershipEntry>,
    awaited: Member,
    id: Member,
    k: u16,
    sample: Seq<MembershipEntry>,
)
    requires
        is_probe_sample(members, awaited, sample_size(k), sample),
    ensures
        relays(sample, id, k).len() <= k,
        forall|i: int|
            0 <= i < relays(sample, id, k).len() ==> {
                let r = #[trigger] relays(sample, id, k)[i];
                &&& r.member != id
                &&& r.member != awaited
                &&& members.contains(r)
            },
{
    broadcast use vstd::seq_lib::group_to_multiset_ensures;

    let cands = others(sample, id);
    lemma_filter_from(sample, |e: MembershipEntry| e.member != id);
    lemma_filter_from(members, |e: MembershipEntry| e.member != awaited);
    assert forall|i: int| 0 <= i < relays(sample, id, k).len() implies {
        let r = #[trigger] relays(sample, id, k)[i];
        &&& r.member != id
        &&& r.member != awaited
        &&& members.contains(r)
    } by {
        let r = relays(sample, id, k)[i];
        assert(r == cands[i]);
        let j = choose|j: int| 0 <= j < sample.len() && cands[i] == sample[j];
        assert(sample.contains(r));
        assert(sample.to_multiset().count(r) > 0);
        assert(others(members, awaited).to_multiset().count(r) > 0);
        assert(others(members, awaited).contains(r));
        let q = choose|q: int| 0 <= q < others(members, awaited).len() && others(members, awaited)[q] == r;
        let p = choose|p: int| 0 <= p < members.len() && others(members, awaited)[q] == members[p];
    }
}

/// Every event waiting to be gossiped is about a member of the table.
pub open spec fn gossip_about_known(members: Seq<MembershipEntry>, buffer: Seq<MembershipEvent>) -> bool {
    forall|i: int| 0 <= i < buffer.len() ==> has_member(members, #[trigger] buffer[i].entry.member)
}

/// Every member that table `a` knows, table `b` knows too.
pub open spec fn keeps_members(a: Seq<MembershipEntry>, b: Seq<MembershipEntry>) -> bool {
    forall|x: Member| #[trigger] has_member(a, x) ==> has_member(b, x)
}

proof fn lemma_known_carries(
    members: Seq<MembershipEntry>,
    grown: Seq<MembershipEntry>,
    buffer: Seq<MembershipEvent>,
)
    requires
        gossip_about_known(members, buffer),
        keeps_members(members, grown),
    ensures
        gossip_about_known(grown, buffer),
{
    assert forall|i: int| 0 <= i < buffer.len() implies has_member(
        grown,
        #[trigger] buffer[i].entry.member,
    ) by {
        assert(has_member(members, buffer[i].entry.member));
    }
}

proof fn lemma_put_event_known(
    members: Seq<MembershipEntry>,
    buffer: Seq<MembershipEvent>,
    e: MembershipEvent,
)
    requires
        gossip_about_known(members, buffer),
        has_member(members, e.entry.member),
    ensures
        gossip_about_known(members, crate::dissemination::put_event(buffer, e)),
{
    let t = crate::dissemination::put_event(buffer, e);
    assert forall|i: int| 0 <= i < t.len() implies has_member(
        members,
        #[trigger] t[i].entry.member,
    ) by {
        if t[i] != e {
            assert(t[i] == buffer[i]);
        }
    }
}

/// Updating the entry at a position with one about the same member keeps the
/// members known, and one entry per member.
proof fn lemma_same_member_update(s: Seq<MembershipEntry>, i: int, v: MembershipEntry)
    requires
        0 <= i < s.len(),
        v.member == s[i].member,
    ensures
        keeps_members(s, s.update(i, v)),
        unique_table(s) ==> unique_table(s.update(i, v)),
{
    let t = s.update(i, v);
    assert forall|k: int| 0 <= k < t.len() implies t[k].member == s[k].member by {}
    assert forall|x: Member| #[trigger] has_member(s, x) implies has_member(t, x) by {
        let j = choose|j: int| 0 <= j < s.len() && s[j].member == x;
        assert(t[j].member == x);
    }
}

proof fn lemma_updated_known(
    id: Member,
    members: Seq<MembershipEntry>,
    buffer: Seq<MembershipEvent>,
    e: MembershipEvent,
)
    requires
        has_member(members, id),
        gossip_about_known(members, buffer),
    ensures
        keeps_members(members, updated(id, members, buffer, e).0),
        gossip_about_known(updated(id, members, buffer, e).0, updated(id, members, buffer, e).1),
{
    let m = e.entry.member;
    let u = updated(id, members, buffer, e);
    lemma_first_index(members, m);
    lemma_first_index(members, id);
    if e.entry.status is Suspect && m == id {
        let i = first_index(members, id);
        lemma_same_member_update(members, i, u.0[i]);
        assert(u.0 == members.update(i, u.0[i]));
        lemma_known_carries(members, u.0, buffer);
        assert(has_member(members, id));
        assert(has_member(u.0, id));
        lemma_put_event_known(u.0, buffer, MembershipEvent {
            entry: refutation(id, u.0[i].incarnation_counter),
            infection_number: infection_count(members.len()) as u64,
        });
    } else if first_index(members, m) < 0 {
        assert forall|x: Member| #[trigger] has_member(members, x) implies has_member(u.0, x) by {
            let j = choose|j: int| 0 <= j < members.len() && members[j].member == x;
            assert(u.0[j] == members[j]);
        }
        lemma_known_carries(members, u.0, buffer);
        assert(u.0[members.len() as int] == e.entry);
        assert(has_member(u.0, m));
        lemma_put_event_known(u.0, buffer, MembershipEvent {
            entry: e.entry,
            infection_number: infection_count(u.0.len()) as u64,
        });
    } else {
        let i = first_index(members, m);
        lemma_same_member_update(members, i, u.0[i]);
        assert(u.0 == members.update(i, u.0[i]));
        lemma_known_carries(members, u.0, buffer);
        assert(has_member(members, m));
        if u.1 != buffer {
            lemma_put_event_known(u.0, buffer, MembershipEvent {
                entry: e.entry,
                infection_number: infection_count(members.len()) as u64,
            });
        }
    }
}

proof fn lemma_merged_known(
    id: Member,
    members: Seq<MembershipEntry>,
    buffer: Seq<MembershipEvent>,
    events: Seq<MembershipEvent>,
)
    requires
        has_member(members, id),
        gossip_about_known(members, buffer),
    ensures
        keeps_members(members, merged(id, members, buffer, events).0),
        gossip_about_known(merged(id, members, buffer, events).0, merged(id, members, buffer, events).1),
    decreases events.len(),
{
    if events.len() > 0 {
        lemma_merged_known(id, members, buffer, events.drop_last());
        let prev = merged(id, members, buffer, events.drop_last());
        assert(has_member(members, id));
        assert(has_member(prev.0, id));
        lemma_updated_known(id, prev.0, prev.1, events.last());
        let u = updated(id, prev.0, prev.1, events.last());
        assert forall|x: Member| #[trigger] has_member(members, x) implies has_member(u.0, x) by {
            assert(has_member(prev.0, x));
        }
    }
}

proof fn lemma_resurrected_known(
    members: Seq<MembershipEntry>,
    buffer: Seq<MembershipEvent>,
    src: Member,
    src_event: Option<MembershipEvent>,
)
    requires
        gossip_about_known(members, buffer),
    ensures
        keeps_members(members, resurrected(members, buffer, src, src_event).0),
        unique_table(members) ==> unique_table(resurrected(members, buffer, src, src_event).0),
        gossip_about_known(
            resurrected(members, buffer, src, src_event).0,
            resurrected(members, buffer, src, src_event).1,
        ),
{
    let r = resurrected(members, buffer, src, src_event);
    let i = first_index(members, src);
    lemma_first_index(members, src);
    if i >= 0 && members[i].status is Confirm {
        lemma_same_member_update(members, i, r.0[i]);
        assert(r.0 == members.update(i, r.0[i]));
        lemma_known_carries(members, r.0, buffer);
        if let Some(e) = src_event {
            assert(has_member(r.0, src)) by {
                assert(r.0[i].member == src);
            }
            lemma_put_event_known(r.0, buffer, MembershipEvent {
                entry: MembershipEntry {
                    member: src,
                    incarnation_counter: e.entry.incarnation_counter,
                    status: MemberStatus::Alive,
                },
                infection_number: infection_count(members.len()) as u64,
            });
        }
    } else {
        assert forall|x: Member| #[trigger] has_member(members, x) implies has_member(r.0, x) by {}
    }
}

proof fn lemma_grab_known(
    members: Seq<MembershipEntry>,
    s: Seq<MembershipEvent>,
    slots: nat,
    out: Seq<MembershipEvent>,
    rest: Seq<MembershipEvent>,
)
    requires
        is_grab(s, slots, out, rest),
        gossip_about_known(members, s),
    ensures
        gossip_about_known(members, rest),
{
    let sel = choose|sel: Seq<int>|
        is_selection(s, slots, sel) && out == selected_events(s, sel) && rest == after_selection(
            s,
            sel,
        );
    let sp = spend_selected(s, sel);
    lemma_filter_from(sp, |e: MembershipEvent| still_infectious(e));
    assert forall|i: int| 0 <= i < rest.len() implies has_member(
        members,
        #[trigger] rest[i].entry.member,
    ) by {
        let j = choose|j: int| 0 <= j < sp.len() && #[trigger] rest[i] == sp[j];
        assert(sp[j].entry == s[j].entry);
        assert(has_member(members, s[j].entry.member));
    }
}

/// Taking in a message keeps the table to one entry per member, keeps the
/// node itself in it, and keeps every event waiting to be gossiped about a
/// member of the table.
pub proof fn law_ingest_keeps_table(st: VigieState, message: Message, after: VigieState)
    requires
        st.wf(),
        unique_table(st.members),
        gossip_about_known(st.members, st.buffer),
        ingested(st, message, after),
    ensures
        unique_table(after.members),
        has_member(after.members, st.id),
        gossip_about_known(after.members, after.buffer),
{
    match message {
        Message::Ping { src, dest, events } => {
            if dest == st.id {
                let m = merged(st.id, st.members, st.buffer, events@);
                lemma_merged_unique(st.id, st.members, st.buffer, events@);
                lemma_merged_known(st.id, st.members, st.buffer, events@);
                let r = resurrected(m.0, m.1, src, event_for(events@, src));
                lemma_resurrected_known(m.0, m.1, src, event_for(events@, src));
                assert(has_member(m.0, st.id));
                assert(has_member(r.0, st.id));
                let (out, rest, ack) = choose|out: Seq<MembershipEvent>, rest: Seq<MembershipEvent>, ack: Effect|
                    is_grab(r.1, st.event_slots as nat, out, rest) && is_ack(ack, dest, src, out)
                        && after == (VigieState {
                        members: r.0,
                        buffer: rest,
                        effects: st.effects.push(ack),
                        ..st
                    });
                lemma_grab_known(r.0, r.1, st.event_slots as nat, out, rest);
            }
        },
        Message::Ack { src, dest, events } => {
            if dest == st.id {
                let m = merged(st.id, st.members, st.buffer, events@);
                lemma_merged_unique(st.id, st.members, st.buffer, events@);
                lemma_merged_known(st.id, st.members, st.buffer, events@);
                if let Some(p) = requester_of(st.pending, src) {
                    let (out, rest, ack) = choose|out: Seq<MembershipEvent>, rest: Seq<MembershipEvent>, ack: Effect|
                        is_grab(m.1, st.event_slots as nat, out, rest) && is_ack(ack, src, p, out)
                            && after.buffer == rest && after.members == m.0;
                    lemma_grab_known(m.0, m.1, st.event_slots as nat, out, rest);
                }
            }
        },
        Message::PingRequest { src, dest, target } => {
            if dest == st.id && has_member(st.members, target) {
                let (out, rest, ping) = choose|out: Seq<MembershipEvent>, rest: Seq<MembershipEvent>, ping: Effect|
                    is_grab(st.buffer, st.event_slots as nat, out, rest) && is_ping(ping, st.id, target, out)
                        && after.buffer == rest && after.members == st.members;
                lemma_grab_known(st.members, st.buffer, st.event_slots as nat, out, rest);
            }
        },
    }
}

/// Idempotence at the node: taking in the same acknowledgement, carrying one
/// event, a second time leaves the membership table as the first time left
/// it, unless the event suspects this node.
pub proof fn law_nodes_update_idempotent(
    st: VigieState,
    src: Member,
    events: Vec<MembershipEvent>,
    once: VigieState,
    twice: VigieState,
)
    requires
        st.wf(),
        events@.len() == 1,
        !(events@[0].entry.member == st.id && events@[0].entry.status is Suspect),
        ingested(st, Message::Ack { src, dest: st.id, events }, once),
        ingested(once, Message::Ack { src, dest: st.id, events }, twice),
    ensures
        twice.members == once.members,
{
    let e = events@[0];
    assert(events@.drop_last() =~= Seq::<MembershipEvent>::empty());
    assert(events@.last() == e);
    let u = updated(st.id, st.members, st.buffer, e);
    assert(merged(st.id, st.members, st.buffer, events@.drop_last()) == (st.members, st.buffer));
    assert(merged(st.id, st.members, st.buffer, events@) == u);
    assert(once.members == u.0);
    assert(once.id == st.id);
    assert(merged(st.id, once.members, once.buffer, events@.drop_last()) == (once.members, once.buffer));
    assert(merged(st.id, once.members, once.buffer, events@) == updated(st.id, u.0, once.buffer, e));
    law_update_is_idempotent(st.id, st.members, st.buffer, e);
    assert(updated(st.id, u.0, once.buffer, e).0 == updated(st.id, u.0, u.1, e).0);
}

/// Where the buffer fits in one message, the selection takes every position.
proof fn lemma_full_selection(s: Seq<MembershipEvent>, slots: nat, sel: Seq<int>, p: int)
    requires
        is_selection(s, slots, sel),
        s.len() <= slots,
        0 <= p < s.len(),
    ensures
        sel.contains(p),
{
    broadcast use vstd::seq_lib::seq_to_set_is_finite;

    let n = s.len() as int;
    let r = vstd::set_lib::set_int_range(0, n);
    vstd::set_lib::lemma_int_range(0, n);
    sel.unique_seq_to_set();
    assert forall|x: int| sel.to_set().contains(x) implies r.contains(x) by {
        let i = choose|i: int| 0 <= i < sel.len() && sel[i] == x;
        assert(0 <= sel[i] < s.len());
    }
    vstd::set_lib::lemma_subset_equality(sel.to_set(), r);
    assert(r.contains(p));
    assert(sel.to_set().contains(p));
}

/// Where the buffer fits in one message, gossiping hands out every event, and
/// the buffer does not grow.
proof fn lemma_small_grab(
    s: Seq<MembershipEvent>,
    slots: nat,
    out: Seq<MembershipEvent>,
    rest: Seq<MembershipEvent>,
    m: Member,
)
    requires
        is_grab(s, slots, out, rest),
        s.len() <= slots,
    ensures
        event_for(s, m) is Some ==> carries(out, m),
        rest.len() <= s.len(),
{
    let sel = choose|sel: Seq<int>|
        is_selection(s, slots, sel) && out == selected_events(s, sel) && rest == after_selection(
            s,
            sel,
        );
    spend_selected(s, sel).lemma_filter_len(|e: MembershipEvent| still_infectious(e));
    lemma_event_index(s, m);
    if event_for(s, m) is Some {
        let j = event_index(s, m);
        lemma_full_selection(s, slots, sel, j);
        let i = choose|i: int| 0 <= i < sel.len() && sel[i] == j;
        assert(out[i] == s[sel[i]]);
        assert(out[i].entry.member == m);
    }
}

/// Gossip from a buffer that fits in one message: news about a member is
/// carried by each of the next messages until it has been sent as many times
/// as its infection number, by none after that, and is then dropped.
pub proof fn law_small_buffer_gossip(
    states: Seq<Seq<MembershipEvent>>,
    slots: nat,
    outs: Seq<Seq<MembershipEvent>>,
    m: Member,
)
    requires
        is_gossip_run(states, slots, outs),
        unique_members(states[0]),
        all_infectious(states[0]),
        states[0].len() <= slots,
    ensures
        times_carried(outs, m) == min_nat(outs.len(), transmissions_left(states[0], m)),
        forall|i: int|
            0 <= i < outs.len() ==> (carries(#[trigger] outs[i], m) <==> i < transmissions_left(
                states[0],
                m,
            )),
        outs.len() >= transmissions_left(states[0], m) ==> event_for(
            states[states.len() - 1],
            m,
        ) is None,
        states[states.len() - 1].len() <= slots,
    decreases outs.len(),
{
    let t0 = transmissions_left(states[0], m);
    let last = states[states.len() - 1];
    law_dissemination_bound(states, slots, outs, m);
    if outs.len() > 0 {
        let k = outs.len() - 1;
        let prev_states = states.drop_last();
        let prev_outs = outs.drop_last();
        assert forall|i: int| 0 <= i < prev_outs.len() implies #[trigger] is_grab(
            prev_states[i],
            slots,
            prev_outs[i],
            prev_states[i + 1],
        ) by {
            assert(is_grab(states[i], slots, outs[i], states[i + 1]));
        }
        assert(is_gossip_run(prev_states, slots, prev_outs));
        law_small_buffer_gossip(prev_states, slots, prev_outs, m);
        law_dissemination_bound(prev_states, slots, prev_outs, m);
        let before = states[k];
        assert(prev_states[prev_states.len() - 1] == before);
        assert(is_grab(before, slots, outs[k], last));
        lemma_small_grab(before, slots, outs[k], last, m);
        law_grab_spends_once(before, slots, outs[k], last, m);
        assert(outs.last() == outs[k]);
        lemma_event_index(before, m);
        if event_for(before, m) is Some {
            assert(before[event_index(before, m)].infection_number >= 1);
        }
        assert forall|i: int| 0 <= i < outs.len() implies (carries(#[trigger] outs[i], m) <==> i
            < t0) by {
            if i < k {
                assert(outs[i] == prev_outs[i]);
            }
        }
    }
    lemma_event_index(last, m);
    if event_for(last, m) is Some {
        assert(last[event_index(last, m)].infection_number >= 1);
    }
}

/// Filtering a table keeps one entry per member.
proof fn lemma_filter_unique_table(s: Seq<MembershipEntry>, pred: spec_fn(MembershipEntry) -> bool)
    requires
        unique_table(s),
    ensures
        unique_table(s.filter(pred)),
    decreases s.len(),
{
    reveal(Seq::filter);
    if s.len() > 0 {
        let d = s.drop_last();
        assert(unique_table(d));
        lemma_filter_unique_table(d, pred);
        lemma_filter_from(d, pred);
        let f = s.filter(pred);
        if pred(s.last()) {
            assert forall|i: int, j: int| 0 <= i < j < f.len() implies f[i].member
                != f[j].member by {
                if j == f.len() - 1 {
                    let k = choose|k: int| 0 <= k < d.len() && d.filter(pred)[i] == d[k];
                    assert(d[k] == s[k]);
                }
            }
        }
    }
}

/// Where the table holds one entry per member, the relays asked to probe the
/// awaited member are distinct members.
pub proof fn law_relays_are_distinct(
    members: Seq<MembershipEntry>,
    awaited: Member,
    id: Member,
    k: u16,
    sample: Seq<MembershipEntry>,
)
    requires
        unique_table(members),
        is_probe_sample(members, awaited, sample_size(k), sample),
    ensures
        forall|i: int, j: int|
            0 <= i < j < relays(sample, id, k).len() ==> relays(sample, id, k)[i].member != relays(
                sample,
                id,
                k,
            )[j].member,
{
    broadcast use vstd::seq_lib::group_to_multiset_ensures;

    let o = others(members, awaited);
    lemma_filter_unique_table(members, |e: MembershipEntry| e.member != awaited);
    assert forall|x: MembershipEntry| sample.to_multiset().contains(x) implies sample.to_multiset().count(
        x,
    ) == 1 by {
        lemma_unique_count(o, x);
        assert(sample.to_multiset().count(x) <= o.to_multiset().count(x));
    }
    sample.lemma_multiset_has_no_duplicates_conv();
    assert forall|i: int, j: int| 0 <= i < j < sample.len() implies sample[i].member
        != sample[j].member by {
        if sample[i].member == sample[j].member {
            assert(sample.contains(sample[i]));
            assert(sample.contains(sample[j]));
            assert(sample.to_multiset().count(sample[i]) <= o.to_multiset().count(sample[i]));
            assert(sample.to_multiset().count(sample[j]) <= o.to_multiset().count(sample[j]));
            lemma_unique_contains(o, sample[i]);
            lemma_unique_contains(o, sample[j]);
        }
    }
    let c = others(sample, id);
    lemma_filter_unique_table(sample, |e: MembershipEntry| e.member != id);
    let r = relays(sample, id, k);
    assert forall|i: int, j: int| 0 <= i < j < r.len() implies r[i].member != r[j].member by {
        assert(r[i] == c[i]);
        assert(r[j] == c[j]);
    }
}

/// Replacing an event by one about the same member moves no event.
proof fn lemma_event_index_update(s: Seq<MembershipEvent>, j: int, x: MembershipEvent, m: Member)
    requires
        0 <= j < s.len(),
        x.entry.member == s[j].entry.member,
    ensures
        event_index(s.update(j, x), m) == event_index(s, m),
{
    lemma_event_entries(s);
    lemma_event_entries(s.update(j, x));
    assert(event_entries(s.update(j, x)) =~= event_entries(s).update(j, x.entry));
    lemma_first_index_update(event_entries(s), j, x.entry, m);
}

/// Accepted news is gossiped: an event about a member the node did not know,
/// or one that supersedes what it knew (other than a confirmed death merged
/// into another), becomes the member's entry and the event the buffer holds
/// about it, to be sent as many times as the table size calls for. News that
/// is not accepted leaves the buffer as it was, and the events about other
/// members never change.
pub proof fn law_accepted_news_is_gossiped(
    id: Member,
    members: Seq<MembershipEntry>,
    buffer: Seq<MembershipEvent>,
    e: MembershipEvent,
)
    requires
        has_member(members, id),
        unique_members(buffer),
        !(e.entry.member == id && e.entry.status is Suspect),
    ensures
        !has_member(members, e.entry.member) ==> find_entry(
            updated(id, members, buffer, e).0,
            e.entry.member,
        ) == Some(e.entry) && event_for(updated(id, members, buffer, e).1, e.entry.member) == Some(
            MembershipEvent {
                entry: e.entry,
                infection_number: infection_count(members.len() + 1) as u64,
            },
        ),
        find_entry(members, e.entry.member) matches Some(k) && supersedes(e.entry, k) && !(
        e.entry.status is Confirm && k.status is Confirm) ==> find_entry(
            updated(id, members, buffer, e).0,
            e.entry.member,
        ) == Some(e.entry) && event_for(updated(id, members, buffer, e).1, e.entry.member) == Some(
            MembershipEvent {
                entry: e.entry,
                infection_number: infection_count(members.len()) as u64,
            },
        ),
        find_entry(members, e.entry.member) matches Some(k) && (!supersedes(e.entry, k) || (
        e.entry.status is Confirm && k.status is Confirm)) ==> updated(id, members, buffer, e).1
            == buffer,
        forall|x: Member|
            x != e.entry.member ==> event_for(updated(id, members, buffer, e).1, x) == event_for(
                buffer,
                x,
            ),
{
    let m = e.entry.member;
    let u = updated(id, members, buffer, e);
    lemma_first_index(members, m);
    if first_index(members, m) < 0 {
        let ev = MembershipEvent {
            entry: e.entry,
            infection_number: infection_count(members.len() + 1) as u64,
        };
        assert(members.push(e.entry).len() == members.len() + 1);
        crate::dissemination::lemma_put_event(buffer, ev);
        lemma_first_index_push(members, e.entry, m);
        lemma_first_index(u.0, m);
    } else {
        let i = first_index(members, m);
        let k = members[i];
        if !(e.entry.status is Confirm && k.status is Confirm) && supersedes(e.entry, k) {
            let ev = MembershipEvent {
                entry: e.entry,
                infection_number: infection_count(members.len()) as u64,
            };
            crate::dissemination::lemma_put_event(buffer, ev);
            lemma_first_index_update(members, i, e.entry, m);
        }
    }
}

/// A member that did not answer its probe is suspected when the next period
/// starts: its entry says so, the event the buffer holds about it is a
/// suspicion of it, and a suspicion timeout is scheduled for it.
pub proof fn law_missing_member_is_suspected(st: VigieState, now: i64, after: VigieState, w: Member)
    requires
        st.wf(),
        st.awaiting == Some(w),
        crate::vigie::period_started(st, now, after),
    ensures
        find_entry(after.members, w) matches Some(e) && e.status is Suspect,
        event_for(after.buffer, w) matches Some(ev) && ev.entry.member == w && ev.entry.status is Suspect,
        after.effects.contains(Effect::ScheduleSuspicionTimeout { delay: st.suspicion_timeout, target: w }),
{
    let (walked, cursor, dest, out, grabbed, ping) = choose|
        walked: Seq<MembershipEntry>,
        cursor: nat,
        dest: MembershipEntry,
        out: Seq<MembershipEvent>,
        grabbed: Seq<MembershipEvent>,
        ping: Effect,
    |
        crate::vigie::is_probe_pick(
            crate::vigie::with_seeds(st).0,
            st.cursor,
            st.id,
            walked,
            cursor,
            dest,
        ) && is_grab(crate::vigie::with_seeds(st).1, st.event_slots as nat, out, grabbed)
            && is_ping(ping, st.id, dest.member, out) && after == crate::vigie::after_period_start(
            st,
            now,
            walked,
            cursor,
            dest,
            grabbed,
            ping,
        );
    crate::vigie::lemma_seeded_keeps(st);
    crate::member_store::lemma_same_multiset_has_member(crate::vigie::with_seeds(st).0, walked, w);
    lemma_first_index(walked, w);
    let i = first_index(walked, w);
    let t = walked.update(i, MembershipEntry { status: MemberStatus::Suspect, ..walked[i] });
    lemma_first_index_update(walked, i, t[i], w);
    lemma_first_index(t, w);
    lemma_event_index(grabbed, w);
    let j = event_index(grabbed, w);
    if j >= 0 {
        let x = MembershipEvent {
            entry: MembershipEntry { status: MemberStatus::Suspect, ..grabbed[j].entry },
            ..grabbed[j]
        };
        lemma_event_index_update(grabbed, j, x, w);
        assert(grabbed.update(j, x)[j] == x);
    } else {
        let x = MembershipEvent {
            entry: MembershipEntry {
                member: w,
                incarnation_counter: walked[i].incarnation_counter,
                status: MemberStatus::Suspect,
            },
            infection_number: infection_count(walked.len()) as u64,
        };
        lemma_event_for_push(grabbed, x, w);
    }
    let e1 = st.effects.push(ping).push(
        Effect::ScheduleSuspicionTimeout { delay: st.suspicion_timeout, target: w },
    );
    assert(after.effects[st.effects.len() as int + 1] == e1[st.effects.len() as int + 1]);
}

/// A ping addressed to the node is answered by one acknowledgement, from the
/// node to the pinger; a ping addressed elsewhere changes nothing.
pub proof fn law_ping_is_acknowledged(st: VigieState, src: Member, dest: Member, events: Vec<MembershipEvent>, after: VigieState)
    requires
        ingested(st, Message::Ping { src, dest, events }, after),
    ensures
        dest == st.id ==> after.effects.len() == st.effects.len() + 1 && after.effects.drop_last()
            == st.effects && (after.effects.last() matches Effect::Ack { src: s, dest: d, .. } && s
            == st.id && d == src),
        dest != st.id ==> after == st,
{
    if dest == st.id {
        let m = merged(st.id, st.members, st.buffer, events@);
        let r = resurrected(m.0, m.1, src, event_for(events@, src));
        let (out, rest, ack) = choose|out: Seq<MembershipEvent>, rest: Seq<MembershipEvent>, ack: Effect|
            is_grab(r.1, st.event_slots as nat, out, rest) && is_ack(ack, dest, src, out)
                && after == (VigieState {
                members: r.0,
                buffer: rest,
                effects: st.effects.push(ack),
                ..st
            });
        assert(after.effects.drop_last() =~= st.effects);
    }
}

/// Only an acknowledgement from the member awaited, addressed to this node,
/// ends the wait for it; any other message leaves the member awaited as it was.
pub proof fn law_only_the_awaited_ack_ends_the_wait(
    st: VigieState,
    message: Message,
    after: VigieState,
)
    requires
        ingested(st, message, after),
    ensures
        after.awaiting == match message {
            Message::Ack { src, dest, .. } => if dest == st.id && st.awaiting == Some(src) {
                None
            } else {
                st.awaiting
            },
            _ => st.awaiting,
        },
{
    match message {
        Message::Ping { src, dest, events } => {
            if dest == st.id {
                let m = merged(st.id, st.members, st.buffer, events@);
                let r = resurrected(m.0, m.1, src, event_for(events@, src));
                let (out, rest, ack) = choose|out: Seq<MembershipEvent>, rest: Seq<MembershipEvent>, ack: Effect|
                    is_grab(r.1, st.event_slots as nat, out, rest) && is_ack(ack, dest, src, out)
                        && after == (VigieState {
                        members: r.0,
                        buffer: rest,
                        effects: st.effects.push(ack),
                        ..st
                    });
            }
        },
        Message::Ack { src, dest, events } => {
            if dest == st.id {
                let m = merged(st.id, st.members, st.buffer, events@);
                if let Some(p) = requester_of(st.pending, src) {
                    let (out, rest, ack) = choose|out: Seq<MembershipEvent>, rest: Seq<MembershipEvent>, ack: Effect|
                        is_grab(m.1, st.event_slots as nat, out, rest) && is_ack(ack, src, p, out)
                            && after.awaiting == (if st.awaiting == Some(src) { None } else { st.awaiting });
                }
            }
        },
        Message::PingRequest { src, dest, target } => {
            if dest == st.id && has_member(st.members, target) {
                let (out, rest, ping) = choose|out: Seq<MembershipEvent>, rest: Seq<MembershipEvent>, ping: Effect|
                    is_grab(st.buffer, st.event_slots as nat, out, rest) && is_ping(ping, st.id, target, out)
                        && after.awaiting == st.awaiting;
            }
        },
    }
}

/// Confirming a suspicion changes nothing unless the member is suspected;
/// then its entry, and the event the buffer holds about it, declare it dead,
/// and nothing about any other member changes.
pub proof fn law_only_suspects_are_confirmed(st: VigieState, s: Member)
    requires
        unique_members(st.buffer),
    ensures
        !(find_entry(st.members, s) matches Some(e) && e.status is Suspect)
            ==> crate::vigie::confirmed(st, s) == st,
        find_entry(st.members, s) is Some && find_entry(st.members, s)->0.status is Suspect ==> {
            let d = MembershipEntry { status: MemberStatus::Confirm, ..find_entry(st.members, s)->0 };
            &&& find_entry(crate::vigie::confirmed(st, s).members, s) == Some(d)
            &&& event_for(crate::vigie::confirmed(st, s).buffer, s) == Some(
                MembershipEvent { entry: d, infection_number: infection_count(st.members.len()) as u64 },
            )
        },
        forall|x: Member|
            x != s ==> find_entry(crate::vigie::confirmed(st, s).members, x) == find_entry(
                st.members,
                x,
            ) && event_for(crate::vigie::confirmed(st, s).buffer, x) == event_for(st.buffer, x),
{
    let after = crate::vigie::confirmed(st, s);
    lemma_first_index(st.members, s);
    let i = first_index(st.members, s);
    if i >= 0 && st.members[i].status is Suspect {
        let d = MembershipEntry { status: MemberStatus::Confirm, ..st.members[i] };
        crate::dissemination::lemma_put_event(
            st.buffer,
            MembershipEvent { entry: d, infection_number: infection_count(st.members.len()) as u64 },
        );
        lemma_first_index_update(st.members, i, d, s);
        assert forall|x: Member| x != s implies find_entry(after.members, x) == find_entry(
            st.members,
            x,
        ) by {
            lemma_first_index_update(st.members, i, d, x);
            lemma_first_index(st.members, x);
            if first_index(st.members, x) >= 0 {
                assert(first_index(st.members, x) != i);
            }
        }
    }
}

/// A request, addressed to this node, to probe a member it knows is served:
/// the node pings that member itself and records who asked. Other requests
/// change nothing.
pub proof fn law_probe_requests_are_served(
    st: VigieState,
    src: Member,
    dest: Member,
    target: Member,
    after: VigieState,
)
    requires
        ingested(st, Message::PingRequest { src, dest, target }, after),
    ensures
        dest == st.id && has_member(st.members, target) ==> after.effects.len() == st.effects.len()
            + 1 && after.effects.drop_last() == st.effects && (after.effects.last() matches Effect::Ping {
            src: s,
            dest: d,
            ..
        } && s == st.id && d == target) && requester_of(after.pending, target) == Some(src)
            && after.members == st.members && after.awaiting == st.awaiting,
        !(dest == st.id && has_member(st.members, target)) ==> after == st,
{
    if dest == st.id && has_member(st.members, target) {
        let (out, rest, ping) = choose|out: Seq<MembershipEvent>, rest: Seq<MembershipEvent>, ping: Effect|
            is_grab(st.buffer, st.event_slots as nat, out, rest) && is_ping(ping, st.id, target, out)
                && after == (VigieState {
                buffer: rest,
                effects: st.effects.push(ping),
                pending: crate::dissemination::put_request(st.pending, target, src),
                ..st
            });
        assert(after.effects.drop_last() =~= st.effects);
    }
}

/// An acknowledgement addressed to this node is relayed, in the name of the
/// member that answered, to the member that asked for that probe, if one did,
/// and the request is then settled; with no such request nothing is sent.
pub proof fn law_answers_are_relayed(
    st: VigieState,
    src: Member,
    events: Vec<MembershipEvent>,
    after: VigieState,
)
    requires
        ingested(st, Message::Ack { src, dest: st.id, events }, after),
    ensures
        requester_of(after.pending, src) is None,
        requester_of(st.pending, src) is None ==> after.effects == st.effects,
        requester_of(st.pending, src) matches Some(p) ==> after.effects.len() == st.effects.len() + 1
            && after.effects.drop_last() == st.effects && (after.effects.last() matches Effect::Ack {
            src: s,
            dest: d,
            ..
        } && s == src && d == p),
{
    let m = merged(st.id, st.members, st.buffer, events@);
    if let Some(p) = requester_of(st.pending, src) {
        let (out, rest, ack) = choose|out: Seq<MembershipEvent>, rest: Seq<MembershipEvent>, ack: Effect|
            is_grab(m.1, st.event_slots as nat, out, rest) && is_ack(ack, src, p, out)
                && after.effects == st.effects.push(ack)
                && after.pending == crate::dissemination::drop_request(st.pending, src);
        assert(after.effects.drop_last() =~= st.effects);
    }
}

/// A member believed dead that pings the node is brought back: its entry turns
/// alive, at the incarnation it announced for itself if it did, and that
/// announcement is gossiped. A member not believed dead is left as it was.
pub proof fn law_dead_pinger_is_resurrected(
    members: Seq<MembershipEntry>,
    buffer: Seq<MembershipEvent>,
    src: Member,
    src_event: Option<MembershipEvent>,
)
    requires
        unique_members(buffer),
    ensures
        !(find_entry(members, src) is Some && find_entry(members, src)->0.status is Confirm)
            ==> resurrected(members, buffer, src, src_event) == (members, buffer),
        find_entry(members, src) is Some && find_entry(members, src)->0.status is Confirm ==> {
            let k = find_entry(members, src)->0;
            let r = resurrected(members, buffer, src, src_event);
            &&& find_entry(r.0, src) == Some(
                MembershipEntry {
                    status: MemberStatus::Alive,
                    incarnation_counter: match src_event {
                        Some(e) => e.entry.incarnation_counter,
                        None => k.incarnation_counter,
                    },
                    ..k
                },
            )
            &&& match src_event {
                Some(e) => event_for(r.1, src) == Some(
                    MembershipEvent {
                        entry: MembershipEntry {
                            member: src,
                            incarnation_counter: e.entry.incarnation_counter,
                            status: MemberStatus::Alive,
                        },
                        infection_number: infection_count(members.len()) as u64,
                    },
                ),
                None => r.1 == buffer,
            }
        },
{
    lemma_first_index(members, src);
    let i = first_index(members, src);
    if i >= 0 && members[i].status is Confirm {
        let r = resurrected(members, buffer, src, src_event);
        lemma_first_index_update(members, i, r.0[i], src);
        if let Some(e) = src_event {
            crate::dissemination::lemma_put_event(
                buffer,
                MembershipEvent {
                    entry: MembershipEntry {
                        member: src,
                        incarnation_counter: e.entry.incarnation_counter,
                        status: MemberStatus::Alive,
                    },
                    infection_number: infection_count(members.len()) as u64,
                },
            );
        }
    }
}

} // verus!
