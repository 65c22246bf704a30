use rand::rngs::ThreadRng;
use rand::seq::{IteratorRandom, SliceRandom};

use vstd::prelude::*;

use crate::member::{Member, MembershipEntry};
use crate::member_store::{
    MemberStore, first_index, has_member, is_first_index, lemma_first_index,
    lemma_first_index_unique, others,
};

verus! {

/// The thread-local random number generator of `rand`.
#[verifier::external_type_specification]
#[verifier::external_body]
pub struct ExThreadRng(ThreadRng);

/// Calls `rand::rng`, which hands out a handle on the thread's random generator.
/// Nothing is promised of the handle; `rand` panics inside this call where the
/// operating system cannot seed the generator.
#[verifier::external_body]
fn thread_rng() -> ThreadRng {
    rand::rng()
}

/// Calls `SliceRandom::shuffle` of `rand` on the entries. Its documentation states
/// that the result is a permutation of the slice: the same entries, each as often.
#[verifier::external_body]
fn shuffle_entries(entries: &mut Vec<MembershipEntry>, rng: &mut ThreadRng)
    ensures
        final(entries)@.to_multiset() == old(entries)@.to_multiset(),
{
    entries.shuffle(rng);
}

/// Calls `IteratorRandom::sample` of `rand` on the candidates. Its source
/// (reservoir sampling) takes each candidate at most once and returns
/// `amount` of them, or all of them where there are fewer. Which ones, and in
/// which order, is left to chance and is not stated.
#[verifier::external_body]
fn sample_entries(candidates: &Vec<MembershipEntry>, rng: &mut ThreadRng, amount: usize) -> (r: Vec<
    MembershipEntry,
>)
    ensures
        r@.to_multiset().subset_of(candidates@.to_multiset()),
        r@.len() == if (amount as nat) < candidates@.len() {
            amount as nat
        } else {
            candidates@.len()
        },
{
    candidates.iter().sample(rng, amount).into_iter().cloned().collect()
}

/// The member store that the crate provides: a vector walked in order, which
/// draws on `rand` to shuffle and sample.
#[derive(Debug, Default)]
pub struct BuiltinMemberStore {
    store: Vec<MembershipEntry>,
    pos: usize,
    rng: ThreadRng,
}

impl BuiltinMemberStore {
    pub fn new() -> (s: Self)
        ensures
            s.entries() == Seq::<MembershipEntry>::empty(),
            s.cursor() == 0,
    {
        BuiltinMemberStore { store: Vec::new(), pos: 0, rng: thread_rng() }
    }

    fn index_of(&self, member: Member) -> (r: Option<usize>)
        ensures
            match r {
                Some(i) => is_first_index(self.store@, member, i as int) && first_index(
                    self.store@,
                    member,
                ) == i,
                None => first_index(self.store@, member) == -1 && !has_member(
                    self.store@,
                    member,
                ),
            },
    {
        let mut i: usize = 0;
        while i < self.store.len()
            invariant
                i <= self.store@.len(),
                forall|j: int| 0 <= j < i ==> self.store@[j].member != member,
            decreases self.store@.len() - i,
        {
            if self.store[i].member == member {
                proof {
                    lemma_first_index_unique(self.store@, member, i as int);
                }
                return Some(i);
            }
            i += 1;
        }
        proof {
            lemma_first_index(self.store@, member);
        }
        None
    }
}

impl MemberStore for BuiltinMemberStore {
    closed spec fn entries(&self) -> Seq<MembershipEntry> {
        self.store@
    }

    closed spec fn cursor(&self) -> nat {
        self.pos as nat
    }

    fn members(&self) -> (r: &[MembershipEntry]) {
        self.store.as_slice()
    }

    fn next(&mut self) -> (r: Option<MembershipEntry>) {
        if self.pos < self.store.len() {
            let element = self.store[self.pos];
            self.pos += 1;
            Some(element)
        } else {
            None
        }
    }

    fn contains(&self, member: Member) -> (r: bool) {
        self.index_of(member).is_some()
    }

    fn get(&mut self, member: Member) -> (r: Option<MembershipEntry>) {
        match self.index_of(member) {
            Some(i) => Some(self.store[i]),
            None => None,
        }
    }

    fn get_mut(&mut self, member: Member) -> (r: Option<&mut MembershipEntry>) {
        match self.index_of(member) {
            Some(i) => Some(&mut self.store[i]),
            None => None,
        }
    }

    fn insert(&mut self, member: MembershipEntry) {
        self.store.push(member);
    }

    fn remove(&mut self, member: Member) {
        let ghost old_store = self.store@;
        let mut kept: Vec<MembershipEntry> = Vec::new();
        let mut i: usize = 0;
        while i < self.store.len()
            invariant
                i <= self.store@.len(),
                self.store@ == old_store,
                kept@ == others(old_store.subrange(0, i as int), member),
            decreases self.store@.len() - i,
        {
            let e = self.store[i];
            proof {
                let pre = old_store.subrange(0, i as int + 1);
                assert(pre.drop_last() =~= old_store.subrange(0, i as int));
                assert(pre.last() == e);
                reveal(Seq::filter);
            }
            if e.member != member {
                kept.push(e);
            }
            i += 1;
        }
        proof {
            assert(old_store.subrange(0, old_store.len() as int) =~= old_store);
        }
        self.store = kept;
    }

    fn clean(&mut self) {
        self.store.clear();
    }

    fn shuffle(&mut self) {
        shuffle_entries(&mut self.store, &mut self.rng);
        self.pos = 0;
    }

    fn get_randomly(&mut self, k: u16, except: Member) -> (r: Vec<MembershipEntry>) {
        let mut candidates: Vec<MembershipEntry> = Vec::new();
        let mut i: usize = 0;
        while i < self.store.len()
            invariant
                i <= self.store@.len(),
                candidates@ == others(self.store@.subrange(0, i as int), except),
            decreases self.store@.len() - i,
        {
            let e = self.store[i];
            proof {
                let pre = self.store@.subrange(0, i as int + 1);
                assert(pre.drop_last() =~= self.store@.subrange(0, i as int));
                assert(pre.last() == e);
                reveal(Seq::filter);
            }
            if e.member != except {
                candidates.push(e);
            }
            i += 1;
        }
        proof {
            assert(self.store@.subrange(0, self.store@.len() as int) =~= self.store@);
        }
        sample_entries(&candidates, &mut self.rng, k as usize)
    }

    fn len(&self) -> (r: u64) {
        self.store.len() as u64
    }

    fn is_empty(&self) -> (r: bool) {
        self.store.len() == 0
    }
}

} // verus!
