use vstd::prelude::*;

use crate::member::{Member, MembershipEntry};

verus! {

/// Whether some entry of `s` is about `m`.
pub open spec fn has_member(s: Seq<MembershipEntry>, m: Member) -> bool {
    exists|i: int| 0 <= i < s.len() && s[i].member == m
}

/// Whether `i` is the position of the first entry of `s` that is about `m`.
pub open spec fn is_first_index(s: Seq<MembershipEntry>, m: Member, i: int) -> bool {
    &&& 0 <= i < s.len()
    &&& s[i].member == m
    &&& forall|j: int| 0 <= j < i ==> s[j].member != m
}

/// The position of the first entry of `s` about `m`, or -1 where there is none.
pub open spec fn first_index(s: Seq<MembershipEntry>, m: Member) -> int {
    if exists|i: int| is_first_index(s, m, i) {
        choose|i: int| is_first_index(s, m, i)
    } else {
        -1
    }
}

/// The first entry of `s` about `m`.
pub open spec fn find_entry(s: Seq<MembershipEntry>, m: Member) -> Option<MembershipEntry> {
    if first_index(s, m) >= 0 {
        Some(s[first_index(s, m)])
    } else {
        None
    }
}

/// The entries of `s` that are not about `except`, in their order.
pub open spec fn others(s: Seq<MembershipEntry>, except: Member) -> Seq<MembershipEntry> {
    s.filter(|e: MembershipEntry| e.member != except)
}

pub proof fn lemma_first_index_exists(s: Seq<MembershipEntry>, m: Member, k: int)
    requires
        0 <= k < s.len(),
        s[k].member == m,
    ensures
        exists|i: int| 0 <= i <= k && is_first_index(s, m, i),
    decreases k,
{
    if exists|j: int| 0 <= j < k && s[j].member == m {
        let j = choose|j: int| 0 <= j < k && s[j].member == m;
        lemma_first_index_exists(s, m, j);
    } else {
        assert(is_first_index(s, m, k));
    }
}

/// What `first_index` is: the first position about `m`, or -1 where none is.
pub proof fn lemma_first_index(s: Seq<MembershipEntry>, m: Member)
    ensures
        first_index(s, m) >= 0 <==> has_member(s, m),
        first_index(s, m) >= 0 ==> is_first_index(s, m, first_index(s, m)),
        first_index(s, m) < 0 ==> first_index(s, m) == -1,
        !has_member(s, m) ==> forall|i: int| 0 <= i < s.len() ==> s[i].member != m,
{
    if has_member(s, m) {
        let k = choose|k: int| 0 <= k < s.len() && s[k].member == m;
        lemma_first_index_exists(s, m, k);
    }
}

/// A position that is the first about `m` is what `first_index` gives.
pub proof fn lemma_first_index_unique(s: Seq<MembershipEntry>, m: Member, i: int)
    requires
        is_first_index(s, m, i),
    ensures
        first_index(s, m) == i,
{
    lemma_first_index(s, m);
    let f = first_index(s, m);
    if f < i {
        assert(s[f].member == m);
    } else if f > i {
        assert(s[i].member != m);
    }
}

/// Appending an entry leaves the first positions of the members present unchanged.
pub proof fn lemma_first_index_push(s: Seq<MembershipEntry>, e: MembershipEntry, m: Member)
    ensures
        first_index(s.push(e), m) == (if first_index(s, m) >= 0 {
            first_index(s, m)
        } else if e.member == m {
            s.len() as int
        } else {
            -1
        }),
{
    lemma_first_index(s, m);
    lemma_first_index(s.push(e), m);
    let t = s.push(e);
    if first_index(s, m) >= 0 {
        let f = first_index(s, m);
        assert(is_first_index(t, m, f));
        lemma_first_index_unique(t, m, f);
    } else if e.member == m {
        assert(is_first_index(t, m, s.len() as int));
        lemma_first_index_unique(t, m, s.len() as int);
    } else {
        assert forall|i: int| 0 <= i < t.len() implies t[i].member != m by {
            if i < s.len() {
                assert(t[i] == s[i]);
            }
        }
    }
}

/// Replacing an entry by one about the same member changes no first position.
pub proof fn lemma_first_index_update(s: Seq<MembershipEntry>, k: int, e: MembershipEntry, m: Member)
    requires
        0 <= k < s.len(),
        e.member == s[k].member,
    ensures
        first_index(s.update(k, e), m) == first_index(s, m),
{
    let t = s.update(k, e);
    assert forall|i: int| 0 <= i < s.len() implies t[i].member == s[i].member by {}
    lemma_first_index(s, m);
    lemma_first_index(t, m);
    if first_index(s, m) >= 0 {
        let f = first_index(s, m);
        assert(is_first_index(t, m, f));
        lemma_first_index_unique(t, m, f);
    } else {
        assert(!has_member(t, m));
    }
}

/// Reordering the entries keeps every entry, hence every member.
pub proof fn lemma_same_multiset_contains(a: Seq<MembershipEntry>, b: Seq<MembershipEntry>, x: MembershipEntry)
    requires
        a.to_multiset() == b.to_multiset(),
        a.contains(x),
    ensures
        b.contains(x),
        has_member(b, x.member),
{
    broadcast use vstd::seq_lib::group_to_multiset_ensures;

    assert(a.to_multiset().count(x) > 0);
    assert(b.to_multiset().count(x) > 0);
    let j = choose|j: int| 0 <= j < b.len() && b[j] == x;
    assert(b[j].member == x.member);
}

/// Reordering the entries keeps every member.
pub proof fn lemma_same_multiset_has_member(a: Seq<MembershipEntry>, b: Seq<MembershipEntry>, m: Member)
    requires
        a.to_multiset() == b.to_multiset(),
        has_member(a, m),
    ensures
        has_member(b, m),
{
    let i = choose|i: int| 0 <= i < a.len() && a[i].member == m;
    assert(a.contains(a[i]));
    lemma_same_multiset_contains(a, b, a[i]);
}

/// The membership table a node keeps. Implementations choose how entries are stored;
/// the protocol reads and changes them only through these methods.
pub trait MemberStore: Sized {
    /// The entries, in the store's order.
    spec fn entries(&self) -> Seq<MembershipEntry>;

    /// How far the round-robin walk of `next` has come.
    spec fn cursor(&self) -> nat;

    fn members(&self) -> (r: &[MembershipEntry])
        ensures
            r@ == self.entries(),
    ;

    /// The entry at the walk's position, which then moves on; `None` once the walk is done.
    fn next(&mut self) -> (r: Option<MembershipEntry>)
        ensures
            final(self).entries() == old(self).entries(),
            old(self).cursor() < old(self).entries().len() ==> r == Some(
                old(self).entries()[old(self).cursor() as int],
            ) && final(self).cursor() == old(self).cursor() + 1,
            old(self).cursor() >= old(self).entries().len() ==> r is None && final(self).cursor()
                >= final(self).entries().len(),
    ;

    fn contains(&self, member: Member) -> (r: bool)
        ensures
            r == has_member(self.entries(), member),
    ;

    /// The first entry about `member`.
    fn get(&mut self, member: Member) -> (r: Option<MembershipEntry>)
        ensures
            r == find_entry(old(self).entries(), member),
            final(self).entries() == old(self).entries(),
            final(self).cursor() == old(self).cursor(),
    ;

    /// The first entry about `member`, to be changed in place.
    fn get_mut(&mut self, member: Member) -> (r: Option<&mut MembershipEntry>)
        ensures
            final(self).cursor() == old(self).cursor(),
            first_index(old(self).entries(), member) < 0 ==> r is None && final(self).entries()
                == old(self).entries(),
            first_index(old(self).entries(), member) >= 0 ==> r is Some && *r->0 == old(
                self,
            ).entries()[first_index(old(self).entries(), member)] && final(self).entries()
                == old(self).entries().update(
                first_index(old(self).entries(), member),
                *final(r->0),
            ),
    ;

    fn insert(&mut self, member: MembershipEntry)
        ensures
            final(self).entries() == old(self).entries().push(member),
            final(self).cursor() == old(self).cursor(),
    ;

    /// Drops every entry about `member`.
    fn remove(&mut self, member: Member)
        ensures
            final(self).entries() == others(old(self).entries(), member),
            final(self).cursor() == old(self).cursor(),
    ;

    fn clean(&mut self)
        ensures
            final(self).entries() == Seq::<MembershipEntry>::empty(),
            final(self).cursor() == old(self).cursor(),
    ;

    /// Puts the entries in a new order and restarts the walk of `next`.
    fn shuffle(&mut self)
        ensures
            final(self).entries().to_multiset() == old(self).entries().to_multiset(),
            final(self).cursor() == 0,
    ;

    /// Up to `k` entries, each taken once, from those not about `except`.
    fn get_randomly(&mut self, k: u16, except: Member) -> (r: Vec<MembershipEntry>)
        ensures
            final(self).entries() == old(self).entries(),
            final(self).cursor() == old(self).cursor(),
            r@.to_multiset().subset_of(others(old(self).entries(), except).to_multiset()),
            r@.len() == if (k as nat) < others(old(self).entries(), except).len() {
                k as nat
            } else {
                others(old(self).entries(), except).len()
            },
    ;

    fn len(&self) -> (r: u64)
        ensures
            r as nat == self.entries().len(),
    ;

    fn is_empty(&self) -> (r: bool)
        ensures
            r == (self.entries().len() == 0),
    ;
}

} // verus!
