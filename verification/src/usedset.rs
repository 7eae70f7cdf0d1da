//! The set of absolute indices already attempted within one selection call.
//!
//! Seeding it with the real spends' indices and entering every sampled
//! candidate keeps ring members pairwise distinct; entries may be released
//! again when ring repair discards a candidate.

use vstd::prelude::*;

verus! {

broadcast use vstd::seq_lib::lemma_seq_contains_after_push, vstd::seq_lib::lemma_seq_empty_contains_nothing;

/// A set of `u64` indices, viewed as `Set<u64>`.
pub struct UsedSet {
    els: Vec<u64>,
}

impl View for UsedSet {
    type V = Set<u64>;

    closed spec fn view(&self) -> Set<u64> {
        Set::new(|x: u64| self.els@.contains(x))
    }
}

impl UsedSet {
    /// The empty set.
    pub fn new() -> (s: UsedSet)
        ensures
            s@ == Set::<u64>::empty(),
    {
        let s = UsedSet { els: Vec::new() };
        proof {
            assert(s@ =~= Set::<u64>::empty());
        }
        s
    }

    /// Whether `x` has been attempted already.
    pub fn contains(&self, x: u64) -> (r: bool)
        ensures
            r == self@.contains(x),
    {
        let mut i: usize = 0;
        while i < self.els.len()
            invariant
                0 <= i <= self.els@.len(),
                forall|j: int| 0 <= j < i ==> self.els@[j] != x,
            decreases self.els@.len() - i,
        {
            if self.els[i] == x {
                proof {
                    assert(self.els@.contains(x)) by {
                        assert(self.els@[i as int] == x);
                    }
                }
                return true;
            }
            i = i + 1;
        }
        proof {
            assert(!self.els@.contains(x));
        }
        false
    }

    /// Mark `x` as attempted.
    pub fn insert(&mut self, x: u64)
        ensures
            final(self)@ == old(self)@.insert(x),
    {
        self.els.push(x);
        proof {
            assert(self@ =~= old(self)@.insert(x));
        }
    }

    /// Release `x`, making it eligible for sampling again.
    pub fn remove(&mut self, x: u64)
        ensures
            final(self)@ == old(self)@.remove(x),
    {
        let mut kept: Vec<u64> = Vec::new();
        let mut i: usize = 0;
        while i < self.els.len()
            invariant
                0 <= i <= self.els@.len(),
                forall|y: u64| #[trigger] kept@.contains(y)
                    <==> (self.els@.subrange(0, i as int).contains(y) && y != x),
            decreases self.els@.len() - i,
        {
            let e = self.els[i];
            proof {
                assert(self.els@.subrange(0, i as int + 1)
                    =~= self.els@.subrange(0, i as int).push(self.els@[i as int]));
            }
            if e != x {
                kept.push(e);
            }
            i = i + 1;
        }
        proof {
            assert(self.els@.subrange(0, self.els@.len() as int) =~= self.els@);
        }
        self.els = kept;
        proof {
            assert(self@ =~= old(self)@.remove(x));
        }
    }
}

} // verus!
