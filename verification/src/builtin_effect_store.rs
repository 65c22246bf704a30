use std::collections::VecDeque;

use vstd::prelude::*;

use crate::effects::{Effect, EffectStore};

verus! {

/// The effect store that the crate provides: a first-in first-out queue.
#[derive(Debug, Default)]
pub struct BuiltinEffectStore(VecDeque<Effect>);

impl BuiltinEffectStore {
    pub fn new() -> (s: Self)
        ensures
            s.pending() == Seq::<Effect>::empty(),
    {
        BuiltinEffectStore(VecDeque::new())
    }
}

impl EffectStore for BuiltinEffectStore {
    /// New effects enter at the front of the deque and leave at its back.
    closed spec fn pending(&self) -> Seq<Effect> {
        self.0@.reverse()
    }

    open spec fn pops_in_order() -> bool {
        true
    }

    fn pop(&mut self) -> (r: Option<Effect>) {
        let r = self.0.pop_back();
        proof {
            if old(self).0@.len() > 0 {
                assert(self.0@.reverse() =~= old(self).0@.reverse().drop_first());
                assert(old(self).0@.reverse().drop_first() =~= old(self).0@.reverse().remove(0));
            }
        }
        r
    }

    fn push(&mut self, effect: Effect) {
        self.0.push_front(effect);
        proof {
            assert(self.0@.reverse() =~= old(self).0@.reverse().push(effect));
        }
    }
}

} // verus!
