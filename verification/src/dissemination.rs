use std::collections::HashMap;

use vstd::prelude::*;

use crate::member::{Member, MembershipEntry, MembershipEvent};
use crate::member_store::{
    first_index, has_member, is_first_index, lemma_first_index, lemma_first_index_unique,
};

verus! {

/// The entries that the events of `s` carry, in order.
pub open spec fn event_entries(s: Seq<MembershipEvent>) -> Seq<MembershipEntry> {
    s.map_values(|e: MembershipEvent| e.entry)
}

/// The position of the event of `s` about `m`, or -1 where there is none.
pub open spec fn event_index(s: Seq<MembershipEvent>, m: Member) -> int {
    first_index(event_entries(s), m)
}

/// The event of `s` about `m`.
pub open spec fn event_for(s: Seq<MembershipEvent>, m: Member) -> Option<MembershipEvent> {
    if event_index(s, m) >= 0 {
        Some(s[event_index(s, m)])
    } else {
        None
    }
}

/// No two events of `s` are about the same member.
pub open spec fn unique_members(s: Seq<MembershipEvent>) -> bool {
    forall|i: int, j: int| 0 <= i < j < s.len() ==> s[i].entry.member != s[j].entry.member
}

/// Every event of `s` is still to be sent at least once.
pub open spec fn all_infectious(s: Seq<MembershipEvent>) -> bool {
    forall|i: int| 0 <= i < s.len() ==> s[i].infection_number >= 1
}

/// The buffer with `e` stored under its member: it replaces the event about
/// that member, or is added after the others.
pub open spec fn put_event(s: Seq<MembershipEvent>, e: MembershipEvent) -> Seq<MembershipEvent> {
    if event_index(s, e.entry.member) >= 0 {
        s.update(event_index(s, e.entry.member), e)
    } else {
        s.push(e)
    }
}

pub open spec fn min_nat(a: nat, b: nat) -> nat {
    if a < b {
        a
    } else {
        b
    }
}

/// `sel` picks `min(slots, |s|)` distinct positions of `s`, in order of
/// their infection numbers, and no position left out has a smaller one.
pub open spec fn is_selection(s: Seq<MembershipEvent>, slots: nat, sel: Seq<int>) -> bool {
    &&& sel.len() == min_nat(slots, s.len())
    &&& forall|i: int| 0 <= i < sel.len() ==> 0 <= #[trigger] sel[i] < s.len()
    &&& sel.no_duplicates()
    &&& forall|i: int, j: int|
        0 <= i <= j < sel.len() ==> s[sel[i]].infection_number <= s[sel[j]].infection_number
    &&& forall|p: int, i: int|
        0 <= p < s.len() && !sel.contains(p) && 0 <= i < sel.len() ==> s[sel[i]].infection_number
            <= s[p].infection_number
}

pub open spec fn selected_events(s: Seq<MembershipEvent>, sel: Seq<int>) -> Seq<MembershipEvent> {
    sel.map_values(|p: int| s[p])
}

/// The event with one transmission less to go.
pub open spec fn spent(e: MembershipEvent) -> MembershipEvent {
    MembershipEvent { infection_number: (e.infection_number - 1) as u64, ..e }
}

pub open spec fn spend_selected(s: Seq<MembershipEvent>, sel: Seq<int>) -> Seq<MembershipEvent> {
    s.map(|p: int, e: MembershipEvent| if sel.contains(p) { spent(e) } else { e })
}

pub open spec fn still_infectious(e: MembershipEvent) -> bool {
    e.infection_number > 0
}

/// The buffer after the selected events were sent once more: those with no
/// transmission left are dropped.
pub open spec fn after_selection(s: Seq<MembershipEvent>, sel: Seq<int>) -> Seq<MembershipEvent> {
    spend_selected(s, sel).filter(|e: MembershipEvent| still_infectious(e))
}

/// Gossiping from buffer `s` with `slots` places handed out `out` and left `rest`:
/// `out` is made of the events with the fewest transmissions left, fewest
/// first, and each of them lost one transmission in `rest`.
pub open spec fn is_grab(
    s: Seq<MembershipEvent>,
    slots: nat,
    out: Seq<MembershipEvent>,
    rest: Seq<MembershipEvent>,
) -> bool {
    exists|sel: Seq<int>|
        #![trigger is_selection(s, slots, sel)]
        is_selection(s, slots, sel) && out == selected_events(s, sel) && rest == after_selection(
            s,
            sel,
        )
}

pub proof fn lemma_event_entries(s: Seq<MembershipEvent>)
    ensures
        event_entries(s).len() == s.len(),
        forall|i: int| 0 <= i < s.len() ==> #[trigger] event_entries(s)[i] == s[i].entry,
{
}

/// What `event_index` is, given that members are unique.
pub proof fn lemma_event_index(s: Seq<MembershipEvent>, m: Member)
    ensures
        event_index(s, m) >= 0 ==> 0 <= event_index(s, m) < s.len() && s[event_index(
            s,
            m,
        )].entry.member == m,
        event_index(s, m) < 0 ==> event_index(s, m) == -1 && forall|i: int|
            0 <= i < s.len() ==> s[i].entry.member != m,
        forall|i: int| 0 <= i < s.len() && s[i].entry.member == m ==> event_index(s, m) >= 0,
        unique_members(s) ==> forall|i: int|
            0 <= i < s.len() && s[i].entry.member == m ==> event_index(s, m) == i,
{
    lemma_event_entries(s);
    lemma_first_index(event_entries(s), m);
    if unique_members(s) {
        assert forall|i: int| 0 <= i < s.len() && s[i].entry.member == m implies event_index(
            s,
            m,
        ) == i by {
            assert(is_first_index(event_entries(s), m, i));
            lemma_first_index_unique(event_entries(s), m, i);
        }
    }
    if event_index(s, m) < 0 {
        assert forall|i: int| 0 <= i < s.len() implies s[i].entry.member != m by {
            assert(event_entries(s)[i].member == s[i].entry.member);
        }
    }
}

/// Storing an event keeps members unique and keeps every event infectious.
pub proof fn lemma_put_event(s: Seq<MembershipEvent>, e: MembershipEvent)
    requires
        unique_members(s),
    ensures
        unique_members(put_event(s, e)),
        all_infectious(s) && e.infection_number >= 1 ==> all_infectious(put_event(s, e)),
        event_for(put_event(s, e), e.entry.member) == Some(e),
        forall|m: Member| m != e.entry.member ==> event_for(put_event(s, e), m) == event_for(s, m),
{
    lemma_event_index(s, e.entry.member);
    let t = put_event(s, e);
    lemma_event_index(t, e.entry.member);
    assert(unique_members(t));
    assert forall|m: Member| m != e.entry.member implies event_for(t, m) == event_for(s, m) by {
        lemma_event_index(s, m);
        lemma_event_index(t, m);
        if event_index(s, m) >= 0 {
            assert(t[event_index(s, m)] == s[event_index(s, m)]);
        }
    }
    let k = if event_index(s, e.entry.member) >= 0 {
        event_index(s, e.entry.member)
    } else {
        s.len() as int
    };
    assert(t[k] == e);
}

/// The elements that a filter keeps come from the filtered sequence, in order.
pub proof fn lemma_filter_from<A>(s: Seq<A>, pred: spec_fn(A) -> bool)
    ensures
        forall|i: int|
            0 <= i < s.filter(pred).len() ==> exists|j: int|
                0 <= j < s.len() && #[trigger] s.filter(pred)[i] == s[j],
        forall|i: int| 0 <= i < s.filter(pred).len() ==> pred(#[trigger] s.filter(pred)[i]),
    decreases s.len(),
{
    reveal(Seq::filter);
    if s.len() > 0 {
        let d = s.drop_last();
        lemma_filter_from(d, pred);
        let f = s.filter(pred);
        assert forall|i: int| 0 <= i < f.len() implies exists|j: int|
            0 <= j < s.len() && #[trigger] f[i] == s[j] by {
            if i < d.filter(pred).len() {
                let j = choose|j: int| 0 <= j < d.len() && d.filter(pred)[i] == d[j];
                assert(f[i] == s[j]);
            } else {
                assert(f[i] == s[s.len() - 1]);
            }
        }
    }
}

/// Filtering keeps members unique.
pub proof fn lemma_filter_unique(s: Seq<MembershipEvent>, pred: spec_fn(MembershipEvent) -> bool)
    requires
        unique_members(s),
    ensures
        unique_members(s.filter(pred)),
    decreases s.len(),
{
    reveal(Seq::filter);
    if s.len() > 0 {
        let d = s.drop_last();
        assert(unique_members(d));
        lemma_filter_unique(d, pred);
        lemma_filter_from(d, pred);
        let f = s.filter(pred);
        if pred(s.last()) {
            assert forall|i: int, j: int| 0 <= i < j < f.len() implies f[i].entry.member
                != f[j].entry.member by {
                if j == f.len() - 1 {
                    let k = choose|k: int| 0 <= k < d.len() && d.filter(pred)[i] == d[k];
                    assert(d[k] == s[k]);
                }
            }
        }
    }
}

spec fn old_work_entry_unmarked(work: Seq<usize>, marks: Seq<bool>, k: int) -> bool {
    !marks[work[k] as int]
}

/// A map from members to the events still to be gossiped about them, each
/// member at most once.
#[derive(Debug)]
pub struct DisseminationBuffer {
    events: Vec<MembershipEvent>,
}

impl View for DisseminationBuffer {
    type V = Seq<MembershipEvent>;

    closed spec fn view(&self) -> Seq<MembershipEvent> {
        self.events@
    }
}

impl DisseminationBuffer {
    pub fn new() -> (b: Self)
        ensures
            b@ == Seq::<MembershipEvent>::empty(),
    {
        DisseminationBuffer { events: Vec::new() }
    }

    pub fn index_of(&self, member: Member) -> (r: Option<usize>)
        ensures
            match r {
                Some(i) => i == event_index(self@, member) && i < self@.len(),
                None => event_index(self@, member) == -1,
            },
    {
        let mut i: usize = 0;
        while i < self.events.len()
            invariant
                i <= self.events@.len(),
                forall|j: int| 0 <= j < i ==> self.events@[j].entry.member != member,
            decreases self.events@.len() - i,
        {
            if self.events[i].entry.member == member {
                proof {
                    lemma_event_entries(self.events@);
                    assert(is_first_index(event_entries(self.events@), member, i as int));
                    lemma_first_index_unique(event_entries(self.events@), member, i as int);
                }
                return Some(i);
            }
            i += 1;
        }
        proof {
            lemma_event_entries(self.events@);
            lemma_first_index(event_entries(self.events@), member);
            assert(!has_member(event_entries(self.events@), member));
        }
        None
    }

    pub fn get(&self, member: Member) -> (r: Option<MembershipEvent>)
        ensures
            r == event_for(self@, member),
    {
        match self.index_of(member) {
            Some(i) => Some(self.events[i]),
            None => None,
        }
    }

    pub fn at(&self, i: usize) -> (r: MembershipEvent)
        requires
            i < self@.len(),
        ensures
            r == self@[i as int],
    {
        self.events[i]
    }

    /// Stores `e` under its member, in place of the event about it if any.
    pub fn put(&mut self, e: MembershipEvent)
        ensures
            final(self)@ == put_event(old(self)@, e),
    {
        match self.index_of(e.entry.member) {
            Some(i) => self.events.set(i, e),
            None => self.events.push(e),
        }
    }

    /// Replaces the event at position `i`.
    pub fn replace_at(&mut self, i: usize, e: MembershipEvent)
        requires
            i < old(self)@.len(),
        ensures
            final(self)@ == old(self)@.update(i as int, e),
    {
        self.events.set(i, e);
    }

    /// Hands out up to `slots` events, those with the fewest transmissions left
    /// first, and counts one transmission for each; events with none left are
    /// dropped.
    pub fn grab(&mut self, slots: u64) -> (out: Vec<MembershipEvent>)
        requires
            all_infectious(old(self)@),
        ensures
            is_grab(old(self)@, slots as nat, out@, final(self)@),
            all_infectious(final(self)@),
            unique_members(old(self)@) ==> unique_members(final(self)@),
    {
        let ghost s = self.events@;
        let n = self.events.len();
        let take: usize = if slots < n as u64 {
            slots as usize
        } else {
            n
        };
        let mut work: Vec<usize> = Vec::new();
        let mut marks: Vec<bool> = Vec::new();
        let mut i: usize = 0;
        while i < n
            invariant
                i <= n,
                n == s.len(),
                work@.len() == i,
                marks@.len() == i,
                forall|k: int| 0 <= k < i ==> work@[k] == k,
                forall|k: int| 0 <= k < i ==> !marks@[k],
            decreases n - i,
        {
            work.push(i);
            marks.push(false);
            i += 1;
        }
        let mut out: Vec<MembershipEvent> = Vec::new();
        let ghost mut sel: Seq<int> = Seq::empty();
        assert(work@.no_duplicates());
        assert forall|p: int| 0 <= p < n && !marks@[p] implies #[trigger] work@.contains(
            p as usize,
        ) by {
            assert(work@[p] == p as usize);
        }
        while out.len() < take
            invariant
                self.events@ == s,
                n == s.len(),
                take <= n,
                take == min_nat(slots as nat, n as nat),
                out@.len() == sel.len(),
                out@.len() <= take,
                work@.len() + sel.len() == n,
                marks@.len() == n,
                forall|i: int| 0 <= i < sel.len() ==> 0 <= #[trigger] sel[i] < n,
                sel.no_duplicates(),
                work@.no_duplicates(),
                forall|i: int| 0 <= i < sel.len() ==> #[trigger] out@[i] == s[sel[i]],
                forall|p: int| 0 <= p < n ==> #[trigger] marks@[p] == sel.contains(p),
                forall|k: int|
                    0 <= k < work@.len() ==> #[trigger] work@[k] < n && !marks@[work@[k] as int],
                forall|p: int| 0 <= p < n && !marks@[p] ==> #[trigger] work@.contains(p as usize),
                forall|i: int, j: int|
                    0 <= i <= j < sel.len() ==> s[sel[i]].infection_number
                        <= s[sel[j]].infection_number,
                forall|p: int, i: int|
                    0 <= p < n && !sel.contains(p) && 0 <= i < sel.len() ==> s[sel[i]].infection_number
                        <= s[p].infection_number,
            decreases take - out@.len(),
        {
            let mut best: usize = 0;
            let mut k: usize = 1;
            while k < work.len()
                invariant
                    0 < work@.len(),
                    best < k <= work@.len(),
                    self.events@ == s,
                    n == s.len(),
                    forall|q: int| 0 <= q < work@.len() ==> #[trigger] work@[q] < n,
                    forall|q: int|
                        0 <= q < k ==> s[work@[best as int] as int].infection_number
                            <= s[#[trigger] work@[q] as int].infection_number,
                decreases work@.len() - k,
            {
                if self.events[work[k]].infection_number < self.events[work[best]].infection_number {
                    best = k;
                }
                k += 1;
            }
            let p = work[best];
            let ghost old_marks = marks@;
            proof {
                assert(old_work_entry_unmarked(work@, old_marks, best as int));
            }
            out.push(self.events[p]);
            marks.set(p, true);
            let ghost old_work = work@;
            let ghost old_sel = sel;
            work.remove(best);
            proof {
                sel = sel.push(p as int);
                assert forall|q: int| 0 <= q < n && !marks@[q] implies #[trigger] work@.contains(
                    q as usize,
                ) by {
                    assert(old_work.contains(q as usize));
                    let w = choose|w: int| 0 <= w < old_work.len() && old_work[w] == q as usize;
                    assert(w != best);
                    if w < best {
                        assert(work@[w] == q as usize);
                    } else {
                        assert(work@[w - 1] == q as usize);
                    }
                }
                assert forall|a: int, b: int| 0 <= a < b < work@.len() implies work@[a]
                    != work@[b] by {
                    let a0 = if a < best { a } else { a + 1 };
                    let b0 = if b < best { b } else { b + 1 };
                    assert(work@[a] == old_work[a0]);
                    assert(work@[b] == old_work[b0]);
                }
                assert forall|q: int| 0 <= q < n implies #[trigger] marks@[q] == sel.contains(q) by {
                    if q == p as int {
                        assert(sel[sel.len() - 1] == q);
                    } else {
                        if old_sel.contains(q) {
                            let w = choose|w: int| 0 <= w < old_sel.len() && old_sel[w] == q;
                            assert(sel[w] == q);
                        }
                        if sel.contains(q) {
                            let w = choose|w: int| 0 <= w < sel.len() && sel[w] == q;
                            assert(w < old_sel.len());
                            assert(old_sel[w] == q);
                        }
                    }
                }
                assert forall|q: int| 0 <= q < old_work.len() implies s[p as int].infection_number
                    <= s[#[trigger] old_work[q] as int].infection_number by {}
                assert forall|q: int, i: int|
                    0 <= q < n && !sel.contains(q) && 0 <= i < sel.len() implies s[sel[i]].infection_number
                    <= s[q].infection_number by {
                    assert(!marks@[q]);
                    assert(old_work.contains(q as usize));
                    let w = choose|w: int| 0 <= w < old_work.len() && old_work[w] == q as usize;
                    assert(s[p as int].infection_number <= s[old_work[w] as int].infection_number);
                    if i < old_sel.len() {
                        assert(!old_sel.contains(q)) by {
                            if old_sel.contains(q) {
                                let w2 = choose|w2: int| 0 <= w2 < old_sel.len() && old_sel[w2] == q;
                                assert(sel[w2] == q);
                            }
                        }
                    }
                }
                assert forall|i: int, j: int| 0 <= i <= j < sel.len() implies s[sel[i]].infection_number
                    <= s[sel[j]].infection_number by {
                    if j == sel.len() - 1 && i < j {
                        assert(!old_marks[p as int]);
                        assert(!old_sel.contains(p as int));
                    }
                }
                assert forall|k: int| 0 <= k < work@.len() implies #[trigger] work@[k] < n
                    && !marks@[work@[k] as int] by {
                    let k0 = if k < best { k } else { k + 1 };
                    assert(work@[k] == old_work[k0]);
                    assert(old_work[k0] != p) by {
                        assert(old_work[best as int] == p);
                    }
                }
            }
        }
        assert(is_selection(s, slots as nat, sel));
        let ghost spent_seq = spend_selected(s, sel);
        let mut rest: Vec<MembershipEvent> = Vec::new();
        let mut q: usize = 0;
        while q < n
            invariant
                q <= n,
                n == s.len(),
                self.events@ == s,
                marks@.len() == n,
                forall|p: int| 0 <= p < n ==> #[trigger] marks@[p] == sel.contains(p),
                all_infectious(s),
                spent_seq == spend_selected(s, sel),
                rest@ == spent_seq.subrange(0, q as int).filter(
                    |e: MembershipEvent| still_infectious(e),
                ),
            decreases n - q,
        {
            let e = self.events[q];
            let e2 = if marks[q] {
                MembershipEvent { infection_number: e.infection_number - 1, ..e }
            } else {
                e
            };
            proof {
                let pre = spent_seq.subrange(0, q as int + 1);
                assert(pre.drop_last() =~= spent_seq.subrange(0, q as int));
                assert(pre.last() == e2);
                reveal(Seq::filter);
            }
            if e2.infection_number > 0 {
                rest.push(e2);
            }
            q += 1;
        }
        proof {
            assert(spent_seq.subrange(0, n as int) =~= spent_seq);
            assert(out@ =~= selected_events(s, sel));
            lemma_filter_from(spent_seq, |e: MembershipEvent| still_infectious(e));
            if unique_members(s) {
                assert(unique_members(spent_seq));
                lemma_filter_unique(spent_seq, |e: MembershipEvent| still_infectious(e));
            }
        }
        self.events = rest;
        out
    }
}

/// The pending indirect probes: for each target, the member that asked for it.
/// Requests are stored under the target's packed key.
#[derive(Debug)]
pub struct PendingRequests {
    requests: HashMap<u64, Member>,
}

/// The requests with `requester` recorded as asking for `target`, in place of
/// an earlier request about it.
pub open spec fn put_request(p: Map<Member, Member>, target: Member, requester: Member) -> Map<
    Member,
    Member,
> {
    p.insert(target, requester)
}

/// Who asked for `target`, if anyone did.
pub open spec fn requester_of(p: Map<Member, Member>, target: Member) -> Option<Member> {
    if p.contains_key(target) {
        Some(p[target])
    } else {
        None
    }
}

/// The requests without the one about `target`.
pub open spec fn drop_request(p: Map<Member, Member>, target: Member) -> Map<Member, Member> {
    p.remove(target)
}

impl View for PendingRequests {
    type V = Map<Member, Member>;

    closed spec fn view(&self) -> Map<Member, Member> {
        Map::new(
            |t: Member| self.requests@.contains_key(t.packed()),
            |t: Member| self.requests@[t.packed()],
        )
    }
}

impl PendingRequests {
    pub fn new() -> (r: Self)
        ensures
            r@ == Map::<Member, Member>::empty(),
    {
        let r = PendingRequests { requests: HashMap::new() };
        assert(r@ =~= Map::<Member, Member>::empty());
        r
    }

    pub fn contains(&self, target: Member) -> (r: bool)
        ensures
            r == self@.contains_key(target),
    {
        broadcast use vstd::std_specs::hash::group_hash_axioms;

        self.requests.contains_key(&target.key())
    }

    /// Records that `requester` asked for `target`, in place of an earlier request.
    pub fn insert(&mut self, target: Member, requester: Member)
        ensures
            final(self)@ == put_request(old(self)@, target, requester),
    {
        broadcast use vstd::std_specs::hash::group_hash_axioms;

        let ghost before = self@;
        self.requests.insert(target.key(), requester);
        proof {
            assert forall|t: Member| #[trigger] self@.contains_key(t) == before.insert(
                target,
                requester,
            ).contains_key(t) && (self@.contains_key(t) ==> self@[t] == before.insert(
                target,
                requester,
            )[t]) by {
                if t.packed() == target.packed() {
                    Member::lemma_packed_injective(t, target);
                }
            }
            assert(self@ =~= before.insert(target, requester));
        }
    }

    /// Removes the request about `target` and says who made it.
    pub fn remove(&mut self, target: Member) -> (r: Option<Member>)
        ensures
            r == requester_of(old(self)@, target),
            final(self)@ == drop_request(old(self)@, target),
    {
        broadcast use vstd::std_specs::hash::group_hash_axioms;

        let ghost before = self@;
        let r = self.requests.remove(&target.key());
        proof {
            assert forall|t: Member| #[trigger] self@.contains_key(t) == before.remove(
                target,
            ).contains_key(t) && (self@.contains_key(t) ==> self@[t] == before.remove(target)[t]) by {
                if t.packed() == target.packed() {
                    Member::lemma_packed_injective(t, target);
                }
            }
            assert(self@ =~= before.remove(target));
        }
        r
    }
}

} // verus!
