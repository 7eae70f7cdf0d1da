//! One selection call, driven as a session.
//!
//! The caller owns the chain access: [`Selection::start`] checks the
//! maturity guard and seeds the used-index set with the real spends, and
//! each [`Selection::step`] consumes the chain's answer for the previously
//! requested batch of indices, then either asks for another batch or hands
//! back the finished artifacts, one per real input, in input order.

use vstd::prelude::*;

use core::mem;

use crate::offsets::decoded;
use crate::ring::{decoys_wf, finalize_ring, insert_sorted, sorted_strict};
use crate::sampler::{
    issuance_window, non_decreasing, sample_candidates, valid_distribution, window_blocks,
    window_start, RandomSource,
};
use crate::usedset::UsedSet;
use crate::{Decoys, OutputData, OutputRecord, SelectError, BLOCK_TIME, DECOYS, FRESHNESS_EXEMPT,
    MATURITY, RING_LEN};

verus! {

/// How many entries of a batch answer confirm an output.
pub open spec fn confirmed_count(resolved: Seq<Option<OutputData>>) -> int
    decreases resolved.len(),
{
    if resolved.len() == 0 {
        0
    } else {
        confirmed_count(resolved.drop_last()) + if resolved.last() is Some {
            1int
        } else {
            0int
        }
    }
}

/// What the session asks of its driver next.
pub enum Step {
    /// Resolve the indices of [`Selection::to_resolve`] against the chain
    /// and hand the outcomes to [`Selection::step`].
    NeedOutputs,
    /// Every ring is finished; the artifacts stand in input order.
    Done(Vec<Decoys>),
}

#[derive(Clone, Copy)]
enum Phase {
    Pool,
    Repair,
    Finished,
    Failed,
}

/// The state of one selection call.
pub struct Selection {
    dist: Vec<u64>,
    high: u64,
    win_out: u64,
    win_sec: u64,
    reals: Vec<OutputRecord>,
    used: UsedSet,
    pool: Vec<OutputRecord>,
    ring: Vec<OutputRecord>,
    pending: Vec<u64>,
    done: Vec<Decoys>,
    phase: Phase,
    fin: Ghost<Seq<Seq<OutputRecord>>>,
    hist: Ghost<Map<u64, OutputData>>,
}

impl Selection {
    /// The real inputs, in the order given to `start`.
    pub closed spec fn reals_view(&self) -> Seq<OutputRecord> {
        self.reals@
    }

    /// The chain's total output count at the reference height.
    pub closed spec fn high_val(&self) -> u64 {
        self.high
    }

    /// The candidate indices awaiting resolution.
    pub closed spec fn awaiting(&self) -> Seq<u64> {
        self.pending@
    }

    /// Whether the session has handed out its artifacts.
    pub closed spec fn finished(&self) -> bool {
        self.phase is Finished
    }

    /// How many more confirmed outputs the session needs before it can
    /// assemble without further sampling: the pool's shortfall while the
    /// pool is filled, the current ring's shortfall while it is repaired.
    pub closed spec fn missing(&self) -> int {
        match self.phase {
            Phase::Pool => self.reals@.len() * DECOYS as int - self.pool@.len(),
            Phase::Repair => RING_LEN as int - self.ring@.len(),
            Phase::Finished => 0,
            Phase::Failed => 0,
        }
    }

    /// The confirmed outputs the driver has answered so far: every `Some`
    /// entry of every answered batch, keyed by absolute index. Ring members
    /// other than the real spends are built from these pairs alone.
    pub closed spec fn answered(&self) -> Map<u64, OutputData> {
        self.hist@
    }

    /// The issuance-rate estimate the session hands to the age sampler:
    /// outputs created in the issuance window, and the window's seconds.
    pub closed spec fn rate(&self) -> (u64, u64) {
        (self.win_out, self.win_sec)
    }

    spec fn base_inv(&self) -> bool {
        &&& valid_distribution(self.dist@, self.high)
        &&& self.high as int * 2 <= u64::MAX as int
        &&& self.reals@.len() * RING_LEN as int <= usize::MAX as int
        &&& MATURITY as int + self.reals@.len() * RING_LEN as int <= self.high as int
        &&& forall|k: int|
            0 <= k < self.reals@.len() ==> self.used@.contains(#[trigger] self.reals@[k].index)
        &&& self.done@.len() <= self.reals@.len()
        &&& forall|k: int|
            0 <= k < self.done@.len() ==> decoys_wf(
                #[trigger] self.done@[k],
                self.reals@[k],
                self.high,
            )
        &&& forall|p: int|
            0 <= p < self.pool@.len() ==> self.used@.contains(#[trigger] self.pool@[p].index)
        &&& forall|p: int|
            0 <= p < self.pool@.len() ==> self.hist@.contains_pair(
                (#[trigger] self.pool@[p]).index,
                self.pool@[p].data,
            )
        &&& forall|p: int, q: int|
            0 <= p < q < self.pool@.len() ==> self.pool@[p].index != self.pool@[q].index
        &&& forall|p: int, k: int|
            #![trigger self.pool@[p], self.reals@[k]]
            0 <= p < self.pool@.len() && 0 <= k < self.reals@.len() ==> self.pool@[p].index
                != self.reals@[k].index
        &&& forall|p: int, q: int|
            0 <= p < q < self.pending@.len() ==> self.pending@[p] != self.pending@[q]
        &&& forall|p: int|
            0 <= p < self.pending@.len() ==> self.used@.contains(#[trigger] self.pending@[p])
        &&& forall|p: int, q: int|
            #![trigger self.pending@[p], self.pool@[q]]
            0 <= p < self.pending@.len() && 0 <= q < self.pool@.len() ==> self.pending@[p]
                != self.pool@[q].index
        &&& forall|p: int, k: int|
            #![trigger self.pending@[p], self.reals@[k]]
            0 <= p < self.pending@.len() && 0 <= k < self.reals@.len() ==> self.pending@[p]
                != self.reals@[k].index
        &&& self.fin_inv()
    }

    spec fn ring_member_foreign(&self, m: int) -> bool {
        forall|k: int|
            0 <= k < self.reals@.len() ==> self.ring@[m].index != #[trigger] self.reals@[k].index
    }

    spec fn ring_core(&self) -> bool {
        let cur = self.done@.len() as int;
        &&& self.done@.len() < self.reals@.len()
        &&& sorted_strict(self.ring@)
        &&& self.ring@.len() <= RING_LEN as int
        &&& self.ring@.contains(self.reals@[cur])
        &&& forall|m: int|
            0 <= m < self.ring@.len() ==> self.used@.contains(#[trigger] self.ring@[m].index)
        &&& forall|m: int|
            0 <= m < self.ring@.len() ==> (#[trigger] self.ring@[m] == self.reals@[cur]
                || self.ring_member_foreign(m))
        &&& forall|m: int|
            0 <= m < self.ring@.len() ==> (#[trigger] self.ring@[m] == self.reals@[cur]
                || self.hist@.contains_pair(self.ring@[m].index, self.ring@[m].data))
        &&& forall|m: int, q: int|
            #![trigger self.ring@[m], self.pool@[q]]
            0 <= m < self.ring@.len() && 0 <= q < self.pool@.len() ==> self.ring@[m].index
                != self.pool@[q].index
        &&& forall|m2: int, k: int, m: int|
            #![trigger self.ring@[m2], self.fin@[k][m]]
            0 <= m2 < self.ring@.len() && 0 <= k < self.fin@.len() && 0 <= m < RING_LEN as int
                ==> (self.ring@[m2] == self.reals@[cur] || self.ring@[m2].index
                != self.fin@[k][m].index)
        &&& self.pool@.len() == (self.reals@.len() - self.done@.len() - 1) * DECOYS as int
    }

    spec fn repair_inv(&self) -> bool {
        &&& self.ring_core()
        &&& self.ring@.len() + self.pending@.len() <= RING_LEN as int
        &&& forall|p: int, m: int|
            #![trigger self.pending@[p], self.ring@[m]]
            0 <= p < self.pending@.len() && 0 <= m < self.ring@.len() ==> self.pending@[p]
                != self.ring@[m].index
    }

    spec fn fin_foreign(&self, k: int, m: int) -> bool {
        forall|k2: int|
            0 <= k2 < self.reals@.len() ==> self.fin@[k][m].index != #[trigger] self.reals@[k2].index
    }

    spec fn fin_inv(&self) -> bool {
        &&& self.fin@.len() == self.done@.len()
        &&& forall|k: int|
            0 <= k < self.fin@.len() ==> (#[trigger] self.fin@[k]).len() == RING_LEN as int
        &&& forall|k: int, m: int|
            #![trigger self.fin@[k][m]]
            0 <= k < self.fin@.len() && 0 <= m < RING_LEN as int ==> decoded(
                self.done@[k].offsets@,
            )[m] == self.fin@[k][m].index as int && self.done@[k].ring@[m]
                == self.fin@[k][m].data
        &&& forall|k: int, m: int|
            #![trigger self.fin@[k][m]]
            0 <= k < self.fin@.len() && 0 <= m < RING_LEN as int ==> self.used@.contains(
                self.fin@[k][m].index,
            )
        &&& forall|k: int, m: int|
            #![trigger self.fin@[k][m]]
            0 <= k < self.fin@.len() && 0 <= m < RING_LEN as int ==> (self.fin@[k][m]
                == self.reals@[k] || self.fin_foreign(k, m))
        &&& forall|k: int, m: int|
            #![trigger self.fin@[k][m]]
            0 <= k < self.fin@.len() && 0 <= m < RING_LEN as int ==> (self.fin@[k][m]
                == self.reals@[k] || self.hist@.contains_pair(
                self.fin@[k][m].index,
                self.fin@[k][m].data,
            ))
        &&& forall|k1: int, m1: int, k2: int, m2: int|
            #![trigger self.fin@[k1][m1], self.fin@[k2][m2]]
            0 <= k1 < self.fin@.len() && 0 <= k2 < self.fin@.len() && k1 != k2 && 0 <= m1
                < RING_LEN as int && 0 <= m2 < RING_LEN as int && self.fin@[k1][m1].index
                == self.fin@[k2][m2].index ==> self.fin@[k1][m1] == self.reals@[k1]
                && self.fin@[k2][m2] == self.reals@[k2]
        &&& forall|p: int, k: int, m: int|
            #![trigger self.pool@[p], self.fin@[k][m]]
            0 <= p < self.pool@.len() && 0 <= k < self.fin@.len() && 0 <= m < RING_LEN as int
                ==> self.pool@[p].index != self.fin@[k][m].index
        &&& forall|p: int, k: int, m: int|
            #![trigger self.pending@[p], self.fin@[k][m]]
            0 <= p < self.pending@.len() && 0 <= k < self.fin@.len() && 0 <= m < RING_LEN as int
                ==> self.pending@[p] != self.fin@[k][m].index
    }

    /// The session invariant: every reachable state of a live session
    /// satisfies it, and [`Selection::step`] preserves it.
    pub closed spec fn inv(&self) -> bool {
        &&& self.base_inv()
        &&& match self.phase {
            Phase::Pool => {
                &&& self.ring@.len() == 0
                &&& self.done@.len() == 0
                &&& self.pool@.len() + self.pending@.len() <= self.reals@.len() * DECOYS as int
            },
            Phase::Repair => self.repair_inv(),
            Phase::Finished => self.pending@.len() == 0,
            Phase::Failed => false,
        }
    }

    spec fn advance_ready(&self) -> bool {
        &&& self.base_inv()
        &&& self.pending@.len() == 0
        &&& (self.ring@.len() == 0 && self.pool@.len() == (self.reals@.len() - self.done@.len())
            * DECOYS as int) || (self.ring@.len() == RING_LEN as int && self.ring_core())
    }

    /// Begin a selection for the given real outputs against the given
    /// cumulative output distribution. Fails, before any sampling, exactly
    /// when the chain lacks enough mature outputs for the requested rings.
    /// On success, drive the session by calling [`Selection::step`] with an
    /// empty answer first.
    #[verifier::loop_isolation(false)]
    pub fn start(dist: Vec<u64>, reals: Vec<OutputRecord>) -> (res: Result<Selection, SelectError>)
        requires
            dist@.len() >= 1,
            non_decreasing(dist@),
            dist@[dist@.len() - 1] as int * 2 <= u64::MAX as int,
            reals@.len() * RING_LEN as int <= usize::MAX as int,
        ensures
            match res {
                Result::Ok(sel) => {
                    &&& sel.inv()
                    &&& !sel.finished()
                    &&& sel.awaiting().len() == 0
                    &&& sel.reals_view() == reals@
                    &&& sel.high_val() == dist@[dist@.len() - 1]
                    &&& sel.missing() == reals@.len() * DECOYS as int
                    &&& sel.answered() == Map::<u64, OutputData>::empty()
                    &&& sel.rate().0 == dist@[dist@.len() - 1] - dist@[window_start(
                        dist@.len() as int,
                    )]
                    &&& sel.rate().1 == window_blocks(dist@.len() as int) * BLOCK_TIME
                    &&& MATURITY as int + reals@.len() * RING_LEN as int <= dist@[dist@.len()
                        - 1] as int
                },
                Result::Err(e) => {
                    &&& e == SelectError::InsufficientOutputs
                    &&& MATURITY as int + reals@.len() * RING_LEN as int > dist@[dist@.len()
                        - 1] as int
                },
            },
    {
        let high = dist[dist.len() - 1];
        if (high as u128) < MATURITY as u128 + (reals.len() as u128) * (RING_LEN as u128) {
            return Err(SelectError::InsufficientOutputs);
        }
        let w = issuance_window(&dist);
        let mut used = UsedSet::new();
        let mut k: usize = 0;
        while k < reals.len()
            invariant
                0 <= k <= reals@.len(),
                forall|j: int| 0 <= j < k ==> used@.contains(#[trigger] reals@[j].index),
            decreases reals@.len() - k,
        {
            used.insert(reals[k].index);
            k = k + 1;
        }
        let sel = Selection {
            dist,
            high,
            win_out: w.0,
            win_sec: w.1,
            reals,
            used,
            pool: Vec::new(),
            ring: Vec::new(),
            pending: Vec::new(),
            done: Vec::new(),
            phase: Phase::Pool,
            fin: Ghost(Seq::empty()),
            hist: Ghost(Map::empty()),
        };
        Ok(sel)
    }

    /// The candidate indices the driver must resolve against the chain
    /// before the next [`Selection::step`].
    pub fn to_resolve(&self) -> (b: &Vec<u64>)
        ensures
            b@ == self.awaiting(),
    {
        &self.pending
    }

    /// Whether the session has handed out its artifacts.
    pub fn is_finished(&self) -> (r: bool)
        ensures
            r == self.finished(),
    {
        match self.phase {
            Phase::Finished => true,
            _ => false,
        }
    }

    /// Feed the chain's answer for the pending batch: one entry per pending
    /// index, `None` where the index is not an existing, spendable output.
    /// Returns the next request, the finished artifacts, or the error that
    /// aborts the session. Success is owed wherever no random draw decides:
    /// with no inputs at all, or when the answer confirms the whole
    /// outstanding shortfall on a chain exempt from the freshness rule, the
    /// call returns the finished artifacts.
    #[verifier::loop_isolation(false)]
    pub fn step<R: RandomSource>(
        &mut self,
        rng: &mut R,
        resolved: &Vec<Option<OutputData>>,
    ) -> (res: Result<Step, SelectError>)
        requires
            old(self).inv(),
            !old(self).finished(),
            resolved@.len() == old(self).awaiting().len(),
        ensures
            old(self).reals_view().len() == 0 ==> (res matches Result::Ok(Step::Done(_))),
            old(self).high_val() <= FRESHNESS_EXEMPT && confirmed_count(resolved@) >= old(
                self,
            ).missing() ==> (res matches Result::Ok(Step::Done(_))),
            forall|j: int|
                #![trigger resolved@[j]]
                0 <= j < resolved@.len() && resolved@[j] is Some
                    ==> final(self).answered().contains_pair(
                    old(self).awaiting()[j],
                    resolved@[j]->Some_0,
                ),
            forall|i2: u64, d: OutputData| #[trigger]
                final(self).answered().contains_pair(i2, d) ==> old(
                    self,
                ).answered().contains_pair(i2, d) || exists|j: int|
                    0 <= j < resolved@.len() && old(self).awaiting()[j] == i2 && resolved@[j]
                        == Some(d),
            match res {
                Result::Ok(s) => {
                    &&& final(self).inv()
                    &&& final(self).reals_view() == old(self).reals_view()
                    &&& final(self).high_val() == old(self).high_val()
                    &&& final(self).rate() == old(self).rate()
                    &&& match s {
                        Step::NeedOutputs => {
                            &&& !final(self).finished()
                            &&& final(self).awaiting().len() > 0
                            &&& final(self).missing() == final(self).awaiting().len()
                        },
                        Step::Done(ds) => {
                            &&& final(self).finished()
                            &&& ds@.len() == old(self).reals_view().len()
                            &&& forall|k: int|
                                0 <= k < ds@.len() ==> decoys_wf(
                                    #[trigger] ds@[k],
                                    old(self).reals_view()[k],
                                    old(self).high_val(),
                                )
                            &&& forall|k1: int, m1: int, k2: int, m2: int|
                                #![trigger decoded(ds@[k1].offsets@)[m1], decoded(ds@[k2].offsets@)[m2]]
                                0 <= k1 < ds@.len() && 0 <= k2 < ds@.len() && k1 != k2 && 0
                                    <= m1 < RING_LEN as int && 0 <= m2 < RING_LEN as int
                                    && decoded(ds@[k1].offsets@)[m1] == decoded(
                                    ds@[k2].offsets@,
                                )[m2] ==> decoded(ds@[k1].offsets@)[m1] == old(
                                    self,
                                ).reals_view()[k1].index as int && decoded(ds@[k2].offsets@)[m2]
                                    == old(self).reals_view()[k2].index as int
                            &&& forall|k: int, m: int|
                                #![trigger decoded(ds@[k].offsets@)[m]]
                                0 <= k < ds@.len() && 0 <= m < RING_LEN as int ==> ((decoded(
                                    ds@[k].offsets@,
                                )[m] == old(self).reals_view()[k].index as int && ds@[k].ring@[m]
                                    == old(self).reals_view()[k].data)
                                    || final(self).answered().contains_pair(
                                    decoded(ds@[k].offsets@)[m] as u64,
                                    ds@[k].ring@[m],
                                ))
                        },
                    }
                },
                Result::Err(e) => {
                    &&& e == SelectError::Exhausted
                    &&& final(self).reals_view() == old(self).reals_view()
                    &&& final(self).high_val() == old(self).high_val()
                    &&& final(self).rate() == old(self).rate()
                },
            },
    {
        let ghost pend = self.pending@;
        let ghost hist0 = self.hist@;
        let ghost mut hm: Map<u64, OutputData> = self.hist@;
        let mut confirmed: Vec<OutputRecord> = Vec::new();
        let mut i: usize = 0;
        while i < resolved.len()
            invariant
                0 <= i <= resolved@.len(),
                confirmed@.len() <= i as int,
                confirmed@.len() == confirmed_count(resolved@.subrange(0, i as int)),
                forall|a: int|
                    0 <= a < confirmed@.len() ==> exists|j: int|
                        0 <= j < i && pend[j] == #[trigger] confirmed@[a].index,
                forall|a: int, b: int|
                    0 <= a < b < confirmed@.len() ==> confirmed@[a].index != confirmed@[b].index,
                forall|i2: u64, d: OutputData|
                    #![trigger hm.contains_pair(i2, d)]
                    hm.contains_pair(i2, d) ==> hist0.contains_pair(i2, d) || exists|j: int|
                        0 <= j < i && pend[j] == i2 && resolved@[j] == Some(d),
                forall|j: int|
                    #![trigger resolved@[j]]
                    0 <= j < i && resolved@[j] is Some ==> hm.contains_pair(
                        pend[j],
                        resolved@[j]->Some_0,
                    ),
                forall|a: int|
                    0 <= a < confirmed@.len() ==> hm.contains_pair(
                        (#[trigger] confirmed@[a]).index,
                        confirmed@[a].data,
                    ),
                forall|i2: u64, d: OutputData|
                    #![trigger hist0.contains_pair(i2, d)]
                    hist0.contains_pair(i2, d) && (forall|j: int|
                        0 <= j < pend.len() ==> pend[j] != i2) ==> hm.contains_pair(i2, d),
            decreases resolved@.len() - i,
        {
            let r = resolved[i];
            match r {
                Some(dat) => {
                    let rec = OutputRecord { index: self.pending[i], data: dat };
                    proof {
                        assert forall|a: int|
                            0 <= a < confirmed@.len() implies confirmed@[a].index
                            != rec.index by {
                            let j = choose|j: int| 0 <= j < i && pend[j] == confirmed@[a].index;
                            assert(pend[j] != pend[i as int]);
                        }
                    }
                    confirmed.push(rec);
                    proof {
                        assert(pend[i as int] == confirmed@[confirmed@.len() - 1].index);
                        assert forall|a: int|
                            0 <= a < confirmed@.len() - 1 implies (
                            #[trigger] confirmed@[a]).index != pend[i as int] by {
                            let j = choose|j: int| 0 <= j < i && pend[j] == confirmed@[a].index;
                            assert(pend[j] != pend[i as int]);
                        }
                        let ghost hmp = hm;
                        hm = hm.insert(rec.index, dat);
                        assert forall|i2: u64, d: OutputData|
                            #![trigger hm.contains_pair(i2, d)]
                            hm.contains_pair(i2, d) implies hist0.contains_pair(i2, d)
                                || exists|j: int|
                                0 <= j < i + 1 && pend[j] == i2 && resolved@[j] == Some(
                                    d,
                                ) by {
                            if i2 == rec.index && d == dat {
                                assert(pend[i as int] == i2 && resolved@[i as int] == Some(d));
                            } else if !hist0.contains_pair(i2, d) {
                                assert(hmp.contains_pair(i2, d));
                                let j = choose|j: int|
                                    0 <= j < i && pend[j] == i2 && resolved@[j] == Some(d);
                                assert(0 <= j < i + 1 && pend[j] == i2 && resolved@[j] == Some(
                                    d,
                                ));
                            }
                        }
                    }
                },
                None => {
                    proof {
                        assert forall|i2: u64, d: OutputData|
                            #![trigger hm.contains_pair(i2, d)]
                            hm.contains_pair(i2, d) && !hist0.contains_pair(i2, d)
                                implies exists|j: int|
                                0 <= j < i + 1 && pend[j] == i2 && resolved@[j] == Some(
                                    d,
                                ) by {
                            let j = choose|j: int|
                                0 <= j < i && pend[j] == i2 && resolved@[j] == Some(d);
                            assert(0 <= j < i + 1 && pend[j] == i2 && resolved@[j] == Some(d));
                        }
                    }
                },
            }
            proof {
                assert(resolved@.subrange(0, i as int + 1).drop_last() =~= resolved@.subrange(
                    0,
                    i as int,
                ));
                assert(resolved@.subrange(0, i as int + 1).last() == resolved@[i as int]);
                assert forall|a: int| 0 <= a < confirmed@.len() implies exists|j: int|
                    0 <= j < i + 1 && pend[j] == #[trigger] confirmed@[a].index by {
                    if exists|j: int| 0 <= j < i && pend[j] == confirmed@[a].index {
                        let j = choose|j: int| 0 <= j < i && pend[j] == confirmed@[a].index;
                        assert(0 <= j < i + 1 && pend[j] == confirmed@[a].index);
                    } else {
                        assert(pend[i as int] == confirmed@[a].index);
                    }
                }
                assert forall|j: int|
                    #![trigger resolved@[j]]
                    0 <= j < i + 1 && resolved@[j] is Some implies hm.contains_pair(
                    pend[j],
                    resolved@[j]->Some_0,
                ) by {
                    if j < i as int {
                        assert(pend[j] != pend[i as int]) by {
                            assert(old(self).pending@[j] != old(self).pending@[i as int]);
                        }
                    }
                }
                assert forall|i2: u64, d: OutputData|
                    #![trigger hist0.contains_pair(i2, d)]
                    hist0.contains_pair(i2, d) && (forall|j: int|
                        0 <= j < pend.len() ==> pend[j] != i2) implies hm.contains_pair(
                    i2,
                    d,
                ) by {
                    assert(pend[i as int] != i2);
                }
            }
            i = i + 1;
        }
        proof {
            assert(resolved@.subrange(0, resolved@.len() as int) =~= resolved@);
        }
        self.hist = Ghost(hm);
        proof {
            assert forall|p: int|
                0 <= p < self.pool@.len() implies self.hist@.contains_pair(
                (#[trigger] self.pool@[p]).index,
                self.pool@[p].data,
            ) by {
                assert(hist0.contains_pair(self.pool@[p].index, self.pool@[p].data));
                assert forall|j: int| 0 <= j < pend.len() implies pend[j]
                    != self.pool@[p].index by {
                    assert(old(self).pending@[j] != old(self).pool@[p].index);
                }
            }
            assert forall|m: int|
                0 <= m < self.ring@.len() implies (#[trigger] self.ring@[m] == self.reals@[
                self.done@.len() as int] || self.hist@.contains_pair(
                self.ring@[m].index,
                self.ring@[m].data,
            )) by {
                if self.ring@[m] != self.reals@[self.done@.len() as int] {
                    assert(hist0.contains_pair(self.ring@[m].index, self.ring@[m].data));
                    assert forall|j: int| 0 <= j < pend.len() implies pend[j]
                        != self.ring@[m].index by {
                        assert(old(self).pending@[j] != old(self).ring@[m].index);
                    }
                }
            }
            assert forall|k: int, m: int|
                #![trigger self.fin@[k][m]]
                0 <= k < self.fin@.len() && 0 <= m < RING_LEN as int implies (self.fin@[k][m]
                == self.reals@[k] || self.hist@.contains_pair(
                self.fin@[k][m].index,
                self.fin@[k][m].data,
            )) by {
                if self.fin@[k][m] != self.reals@[k] {
                    assert(hist0.contains_pair(self.fin@[k][m].index, self.fin@[k][m].data));
                    assert forall|j: int| 0 <= j < pend.len() implies pend[j]
                        != self.fin@[k][m].index by {
                        assert(old(self).pending@[j] != old(self).fin@[k][m].index);
                    }
                }
            }
        }
        let ghost conf = confirmed@;
        match self.phase {
            Phase::Pool => {
                let ghost pool0 = self.pool@;
                self.pool.append(&mut confirmed);
                self.pending = Vec::new();
                proof {
                    assert forall|p: int, q: int|
                        0 <= p < q < self.pool@.len() implies self.pool@[p].index
                        != self.pool@[q].index by {
                        if q >= pool0.len() {
                            let jq = choose|j: int|
                                0 <= j < pend.len() && pend[j] == conf[q - pool0.len()].index;
                            if p >= pool0.len() {
                            } else {
                                assert(pend[jq] != pool0[p].index);
                            }
                        }
                    }
                    assert forall|p: int|
                        0 <= p < self.pool@.len() implies self.used@.contains(
                        #[trigger] self.pool@[p].index) by {
                        if p >= pool0.len() {
                            let jp = choose|j: int|
                                0 <= j < pend.len() && pend[j] == conf[p - pool0.len()].index;
                            assert(self.used@.contains(pend[jp]));
                        }
                    }
                    assert forall|p: int, k: int|
                        #![trigger self.pool@[p], self.reals@[k]]
                        0 <= p < self.pool@.len() && 0 <= k < self.reals@.len()
                        implies self.pool@[p].index != self.reals@[k].index by {
                        if p >= pool0.len() {
                            let jp = choose|j: int|
                                0 <= j < pend.len() && pend[j] == conf[p - pool0.len()].index;
                            assert(pend[jp] != self.reals@[k].index);
                        }
                    }
                    assert forall|p: int|
                        0 <= p < self.pool@.len() implies self.hist@.contains_pair(
                        (#[trigger] self.pool@[p]).index,
                        self.pool@[p].data,
                    ) by {
                        if p >= pool0.len() {
                            assert(self.pool@[p] == conf[p - pool0.len()]);
                        } else {
                            assert(self.pool@[p] == pool0[p]);
                        }
                    }
                }
                let target = self.reals.len() * DECOYS;
                proof {
                    assert(self.reals@.len() * DECOYS as int <= self.reals@.len()
                        * RING_LEN as int) by (nonlinear_arith)
                        requires self.reals@.len() >= 0;
                    assert(confirmed_count(resolved@) == conf.len());
                    assert(self.pool@.len() == pool0.len() + conf.len());
                }
                if self.pool.len() < target {
                    let need = target - self.pool.len();
                    let ghost ub = self.used@;
                    match sample_candidates(
                        rng,
                        &self.dist,
                        self.high,
                        self.win_out,
                        self.win_sec,
                        &mut self.used,
                        need,
                    ) {
                        Ok(c) => {
                            proof {
                                assert forall|k: int|
                                    0 <= k < self.reals@.len() implies self.used@.contains(
                                    #[trigger] self.reals@[k].index) by {
                                    assert(ub.contains(self.reals@[k].index));
                                }
                                assert forall|p: int|
                                    0 <= p < self.pool@.len() implies self.used@.contains(
                                    #[trigger] self.pool@[p].index) by {
                                    assert(ub.contains(self.pool@[p].index));
                                }
                                assert forall|p: int, q: int|
                                    #![trigger c@[p], self.pool@[q]]
                                    0 <= p < c@.len() && 0 <= q < self.pool@.len()
                                    implies c@[p] != self.pool@[q].index by {
                                    assert(ub.contains(self.pool@[q].index));
                                    assert(!ub.contains(c@[p]));
                                }
                                assert forall|p: int, k: int|
                                    #![trigger c@[p], self.reals@[k]]
                                    0 <= p < c@.len() && 0 <= k < self.reals@.len()
                                    implies c@[p] != self.reals@[k].index by {
                                    assert(ub.contains(self.reals@[k].index));
                                    assert(!ub.contains(c@[p]));
                                }
                            }
                            self.pending = c;
                            return Ok(Step::NeedOutputs);
                        },
                        Err(e) => {
                            self.phase = Phase::Failed;
                            return Err(e);
                        },
                    }
                }
                self.advance(rng)
            },
            Phase::Repair => {
                let ghost ring0 = self.ring@;
                proof {
                    assert(conf.len() <= pend.len());
                    assert forall|a: int, k: int|
                        #![trigger conf[a], ring0[k]]
                        0 <= a < conf.len() && 0 <= k < ring0.len() implies conf[a].index
                        != ring0[k].index by {
                        let j = choose|j: int| 0 <= j < pend.len() && pend[j] == conf[a].index;
                        assert(pend[j] != self.ring@[k].index);
                    }
                }
                let mut ring_local: Vec<OutputRecord> = Vec::new();
                mem::swap(&mut ring_local, &mut self.ring);
                extend_ring(&mut ring_local, &confirmed);
                mem::swap(&mut ring_local, &mut self.ring);
                self.pending = Vec::new();
                proof {
                    let cur = self.done@.len() as int;
                    assert(self.ring@.contains(self.reals@[cur])) by {
                        assert(ring0.contains(old(self).reals@[cur]));
                    }
                    assert forall|m: int|
                        0 <= m < self.ring@.len() implies self.used@.contains(
                        #[trigger] self.ring@[m].index) && (self.ring@[m] == self.reals@[cur]
                        || self.ring_member_foreign(m)) by {
                        assert(self.ring@.contains(self.ring@[m]));
                        if ring0.contains(self.ring@[m]) {
                            let q = choose|q: int|
                                0 <= q < ring0.len() && ring0[q] == self.ring@[m];
                            assert(old(self).used@.contains(old(self).ring@[q].index));
                            assert(old(self).ring@[q] == old(self).reals@[cur]
                                || old(self).ring_member_foreign(q));
                            if old(self).ring@[q] != old(self).reals@[cur] {
                                assert forall|k: int|
                                    0 <= k < self.reals@.len() implies self.ring@[m].index
                                    != #[trigger] self.reals@[k].index by {
                                    assert(old(self).ring@[q].index != old(
                                        self,
                                    ).reals@[k].index);
                                }
                            }
                        } else {
                            let a = choose|a: int| 0 <= a < conf.len() && conf[a] == self.ring@[
                                m];
                            let j = choose|j: int|
                                0 <= j < pend.len() && pend[j] == conf[a].index;
                            assert(old(self).used@.contains(old(self).pending@[j]));
                            assert forall|k: int|
                                0 <= k < self.reals@.len() implies self.ring@[m].index
                                != #[trigger] self.reals@[k].index by {
                                assert(old(self).pending@[j] != old(self).reals@[k].index);
                            }
                        }
                    }
                    assert forall|m: int, q: int|
                        #![trigger self.ring@[m], self.pool@[q]]
                        0 <= m < self.ring@.len() && 0 <= q < self.pool@.len()
                        implies self.ring@[m].index != self.pool@[q].index by {
                        assert(self.ring@.contains(self.ring@[m]));
                        if ring0.contains(self.ring@[m]) {
                            let mq = choose|mq: int|
                                0 <= mq < ring0.len() && ring0[mq] == self.ring@[m];
                            assert(old(self).ring@[mq].index != old(self).pool@[q].index);
                        } else {
                            let a = choose|a: int| 0 <= a < conf.len() && conf[a] == self.ring@[
                                m];
                            let j = choose|j: int|
                                0 <= j < pend.len() && pend[j] == conf[a].index;
                            assert(old(self).pending@[j] != old(self).pool@[q].index);
                        }
                    }
                    assert forall|m2: int, k: int, m: int|
                        #![trigger self.ring@[m2], self.fin@[k][m]]
                        0 <= m2 < self.ring@.len() && 0 <= k < self.fin@.len() && 0 <= m
                            < RING_LEN as int implies (self.ring@[m2] == self.reals@[cur]
                        || self.ring@[m2].index != self.fin@[k][m].index) by {
                        assert(self.ring@.contains(self.ring@[m2]));
                        if ring0.contains(self.ring@[m2]) {
                            let mq = choose|mq: int|
                                0 <= mq < ring0.len() && ring0[mq] == self.ring@[m2];
                            assert(old(self).ring@[mq] == old(self).reals@[cur] || old(
                                self,
                            ).ring@[mq].index != old(self).fin@[k][m].index);
                        } else {
                            let a = choose|a: int| 0 <= a < conf.len() && conf[a] == self.ring@[
                                m2];
                            let j = choose|j: int|
                                0 <= j < pend.len() && pend[j] == conf[a].index;
                            assert(old(self).pending@[j] != old(self).fin@[k][m].index);
                        }
                    }
                    assert forall|m2: int|
                        0 <= m2 < self.ring@.len() implies (#[trigger] self.ring@[m2]
                        == self.reals@[cur] || self.hist@.contains_pair(
                        self.ring@[m2].index,
                        self.ring@[m2].data,
                    )) by {
                        assert(self.ring@.contains(self.ring@[m2]));
                        if ring0.contains(self.ring@[m2]) {
                            let mq = choose|mq: int|
                                0 <= mq < ring0.len() && ring0[mq] == self.ring@[m2];
                        } else {
                            let a = choose|a: int| 0 <= a < conf.len() && conf[a] == self.ring@[
                                m2];
                        }
                    }
                }
                if self.ring.len() < RING_LEN {
                    proof {
                        assert(self.ring@.len() == ring0.len() + conf.len());
                        assert(confirmed_count(resolved@) == conf.len());
                        assert(old(self).repair_inv());
                    }
                    let need = RING_LEN - self.ring.len();
                    let ghost ub = self.used@;
                    match sample_candidates(
                        rng,
                        &self.dist,
                        self.high,
                        self.win_out,
                        self.win_sec,
                        &mut self.used,
                        need,
                    ) {
                        Ok(c) => {
                            proof {
                                assert forall|k: int|
                                    0 <= k < self.reals@.len() implies self.used@.contains(
                                    #[trigger] self.reals@[k].index) by {
                                    assert(ub.contains(self.reals@[k].index));
                                }
                                assert forall|p: int|
                                    0 <= p < self.pool@.len() implies self.used@.contains(
                                    #[trigger] self.pool@[p].index) by {
                                    assert(ub.contains(self.pool@[p].index));
                                }
                                assert forall|m: int|
                                    0 <= m < self.ring@.len() implies self.used@.contains(
                                    #[trigger] self.ring@[m].index) by {
                                    assert(ub.contains(self.ring@[m].index));
                                }
                                assert forall|p: int, q: int|
                                    #![trigger c@[p], self.pool@[q]]
                                    0 <= p < c@.len() && 0 <= q < self.pool@.len()
                                    implies c@[p] != self.pool@[q].index by {
                                    assert(ub.contains(self.pool@[q].index));
                                    assert(!ub.contains(c@[p]));
                                }
                                assert forall|p: int, k: int|
                                    #![trigger c@[p], self.reals@[k]]
                                    0 <= p < c@.len() && 0 <= k < self.reals@.len()
                                    implies c@[p] != self.reals@[k].index by {
                                    assert(ub.contains(self.reals@[k].index));
                                    assert(!ub.contains(c@[p]));
                                }
                                assert forall|p: int, m: int|
                                    #![trigger c@[p], self.ring@[m]]
                                    0 <= p < c@.len() && 0 <= m < self.ring@.len()
                                    implies c@[p] != self.ring@[m].index by {
                                    assert(ub.contains(self.ring@[m].index));
                                    assert(!ub.contains(c@[p]));
                                }
                                assert forall|k: int, m: int|
                                    #![trigger self.fin@[k][m]]
                                    0 <= k < self.fin@.len() && 0 <= m < RING_LEN as int
                                    implies self.used@.contains(self.fin@[k][m].index) by {
                                    assert(ub.contains(self.fin@[k][m].index));
                                }
                                assert forall|p: int, k: int, m: int|
                                    #![trigger c@[p], self.fin@[k][m]]
                                    0 <= p < c@.len() && 0 <= k < self.fin@.len() && 0 <= m
                                        < RING_LEN as int implies c@[p]
                                        != self.fin@[k][m].index by {
                                    assert(ub.contains(self.fin@[k][m].index));
                                    assert(!ub.contains(c@[p]));
                                }
                            }
                            self.pending = c;
                            return Ok(Step::NeedOutputs);
                        },
                        Err(e) => {
                            self.phase = Phase::Failed;
                            return Err(e);
                        },
                    }
                }
                self.advance(rng)
            },
            Phase::Finished | Phase::Failed => {
                // Unreachable: a live session is pooling or repairing.
                proof {
                    assert(false);
                }
                self.phase = Phase::Failed;
                Err(SelectError::Exhausted)
            },
        }
    }

    #[verifier::loop_isolation(false)]
    fn advance<R: RandomSource>(&mut self, rng: &mut R) -> (res: Result<Step, SelectError>)
        requires
            old(self).advance_ready(),
        ensures
            old(self).reals_view().len() == 0 ==> (res matches Result::Ok(Step::Done(_))),
            old(self).high_val() <= FRESHNESS_EXEMPT ==> (res matches Result::Ok(Step::Done(_))),
            match res {
                Result::Ok(s) => {
                    &&& final(self).inv()
                    &&& final(self).reals_view() == old(self).reals_view()
                    &&& final(self).high_val() == old(self).high_val()
                    &&& final(self).rate() == old(self).rate()
                    &&& final(self).answered() == old(self).answered()
                    &&& match s {
                        Step::NeedOutputs => {
                            &&& !final(self).finished()
                            &&& final(self).awaiting().len() > 0
                            &&& final(self).missing() == final(self).awaiting().len()
                        },
                        Step::Done(ds) => {
                            &&& final(self).finished()
                            &&& ds@.len() == old(self).reals_view().len()
                            &&& forall|k: int|
                                0 <= k < ds@.len() ==> decoys_wf(
                                    #[trigger] ds@[k],
                                    old(self).reals_view()[k],
                                    old(self).high_val(),
                                )
                            &&& forall|k1: int, m1: int, k2: int, m2: int|
                                #![trigger decoded(ds@[k1].offsets@)[m1], decoded(ds@[k2].offsets@)[m2]]
                                0 <= k1 < ds@.len() && 0 <= k2 < ds@.len() && k1 != k2 && 0
                                    <= m1 < RING_LEN as int && 0 <= m2 < RING_LEN as int
                                    && decoded(ds@[k1].offsets@)[m1] == decoded(
                                    ds@[k2].offsets@,
                                )[m2] ==> decoded(ds@[k1].offsets@)[m1] == old(
                                    self,
                                ).reals_view()[k1].index as int && decoded(ds@[k2].offsets@)[m2]
                                    == old(self).reals_view()[k2].index as int
                            &&& forall|k: int, m: int|
                                #![trigger decoded(ds@[k].offsets@)[m]]
                                0 <= k < ds@.len() && 0 <= m < RING_LEN as int ==> ((decoded(
                                    ds@[k].offsets@,
                                )[m] == old(self).reals_view()[k].index as int && ds@[k].ring@[m]
                                    == old(self).reals_view()[k].data)
                                    || final(self).answered().contains_pair(
                                    decoded(ds@[k].offsets@)[m] as u64,
                                    ds@[k].ring@[m],
                                ))
                        },
                    }
                },
                Result::Err(e) => {
                    &&& e == SelectError::Exhausted
                    &&& final(self).reals_view() == old(self).reals_view()
                    &&& final(self).high_val() == old(self).high_val()
                    &&& final(self).rate() == old(self).rate()
                    &&& final(self).answered() == old(self).answered()
                },
            },
    {
        loop
            invariant
                self.advance_ready(),
                self.reals@ == old(self).reals@,
                self.high == old(self).high,
                self.win_out == old(self).win_out,
                self.win_sec == old(self).win_sec,
                self.hist == old(self).hist,
            decreases (self.reals@.len() - self.done@.len()) * 12 - self.ring@.len(),
        {
            if self.ring.len() == 0 {
                if self.done.len() == self.reals.len() {
                    proof {
                        assert forall|k1: int, m1: int, k2: int, m2: int|
                            #![trigger decoded(self.done@[k1].offsets@)[m1], decoded(self.done@[k2].offsets@)[m2]]
                            0 <= k1 < self.done@.len() && 0 <= k2 < self.done@.len() && k1 != k2
                                && 0 <= m1 < RING_LEN as int && 0 <= m2 < RING_LEN as int
                                && decoded(self.done@[k1].offsets@)[m1] == decoded(
                                self.done@[k2].offsets@,
                            )[m2] implies decoded(self.done@[k1].offsets@)[m1]
                            == self.reals@[k1].index as int && decoded(self.done@[k2].offsets@)[
                            m2] == self.reals@[k2].index as int by {
                            assert(decoded(self.done@[k1].offsets@)[m1]
                                == self.fin@[k1][m1].index as int);
                            assert(decoded(self.done@[k2].offsets@)[m2]
                                == self.fin@[k2][m2].index as int);
                            assert(self.fin@[k1][m1].index == self.fin@[k2][m2].index);
                        }
                        assert forall|k: int, m: int|
                            #![trigger decoded(self.done@[k].offsets@)[m]]
                            0 <= k < self.done@.len() && 0 <= m < RING_LEN as int implies ((
                            decoded(self.done@[k].offsets@)[m] == self.reals@[k].index as int
                                && self.done@[k].ring@[m] == self.reals@[k].data)
                            || self.hist@.contains_pair(
                            decoded(self.done@[k].offsets@)[m] as u64,
                            self.done@[k].ring@[m],
                        )) by {
                            assert(decoded(self.done@[k].offsets@)[m]
                                == self.fin@[k][m].index as int);
                            assert(self.done@[k].ring@[m] == self.fin@[k][m].data);
                            assert(self.fin@[k][m] == self.reals@[k]
                                || self.hist@.contains_pair(
                                self.fin@[k][m].index,
                                self.fin@[k][m].data,
                            ));
                        }
                    }
                    self.phase = Phase::Finished;
                    let mut out: Vec<Decoys> = Vec::new();
                    mem::swap(&mut out, &mut self.done);
                    self.fin = Ghost(Seq::empty());
                    return Ok(Step::Done(out));
                }
                let spend = self.reals[self.done.len()];
                let ghost pre0 = *self;
                let ghost pool0 = self.pool@;
                let ghost cur = self.done@.len() as int;
                proof {
                    assert(pool0.len() >= DECOYS as int) by {
                        assert((self.reals@.len() - self.done@.len()) * DECOYS as int >= 1
                            * DECOYS as int) by (nonlinear_arith)
                            requires self.reals@.len() - self.done@.len() >= 1;
                    }
                }
                let mut pool_local: Vec<OutputRecord> = Vec::new();
                let mut ring_local: Vec<OutputRecord> = Vec::new();
                mem::swap(&mut pool_local, &mut self.pool);
                build_ring(&mut pool_local, &mut ring_local, spend);
                mem::swap(&mut pool_local, &mut self.pool);
                mem::swap(&mut ring_local, &mut self.ring);
                proof {
                    assert(self.pool@.len() == (self.reals@.len() - self.done@.len() - 1)
                        * DECOYS as int) by {
                        assert((self.reals@.len() - cur) * DECOYS as int - DECOYS as int
                            == (self.reals@.len() - cur - 1) * DECOYS as int)
                            by (nonlinear_arith);
                    }
                    assert forall|m: int|
                        0 <= m < self.ring@.len() implies self.used@.contains(
                        #[trigger] self.ring@[m].index) && (self.ring@[m] == self.reals@[cur]
                        || self.ring_member_foreign(m)) by {
                        assert(self.ring@.contains(self.ring@[m]));
                        if self.ring@[m] != spend {
                            let q = choose|q: int|
                                pool0.len() - DECOYS as int <= q < pool0.len() && pool0[q]
                                    == self.ring@[m];
                            assert(self.used@.contains(pool0[q].index));
                            assert forall|k: int|
                                0 <= k < self.reals@.len() implies self.ring@[m].index
                                != #[trigger] self.reals@[k].index by {
                                assert(pool0[q].index != self.reals@[k].index);
                            }
                        }
                    }
                    assert forall|m: int, q: int|
                        #![trigger self.ring@[m], self.pool@[q]]
                        0 <= m < self.ring@.len() && 0 <= q < self.pool@.len()
                        implies self.ring@[m].index != self.pool@[q].index by {
                        assert(self.ring@.contains(self.ring@[m]));
                        assert(self.pool@[q] == pool0[q]);
                        if self.ring@[m] == spend {
                            assert(pool0[q].index != self.reals@[cur].index);
                        } else {
                            let qq = choose|qq: int|
                                pool0.len() - DECOYS as int <= qq < pool0.len() && pool0[qq]
                                    == self.ring@[m];
                            assert(pool0[qq].index != pool0[q].index);
                        }
                    }
                    assert forall|p: int, k: int, m: int|
                        #![trigger self.pool@[p], self.fin@[k][m]]
                        0 <= p < self.pool@.len() && 0 <= k < self.fin@.len() && 0 <= m
                            < RING_LEN as int implies self.pool@[p].index
                        != self.fin@[k][m].index by {
                        assert(self.pool@[p] == pool0[p]);
                        assert(pre0.pool@[p].index != pre0.fin@[k][m].index);
                    }
                    assert forall|m2: int, k: int, m: int|
                        #![trigger self.ring@[m2], self.fin@[k][m]]
                        0 <= m2 < self.ring@.len() && 0 <= k < self.fin@.len() && 0 <= m
                            < RING_LEN as int implies (self.ring@[m2] == self.reals@[cur]
                        || self.ring@[m2].index != self.fin@[k][m].index) by {
                        assert(self.ring@.contains(self.ring@[m2]));
                        if self.ring@[m2] != spend {
                            let qq = choose|qq: int|
                                pool0.len() - DECOYS as int <= qq < pool0.len() && pool0[qq]
                                    == self.ring@[m2];
                            assert(pre0.pool@[qq].index != pre0.fin@[k][m].index);
                        }
                    }
                    assert forall|m2: int|
                        0 <= m2 < self.ring@.len() implies (#[trigger] self.ring@[m2]
                        == self.reals@[cur] || self.hist@.contains_pair(
                        self.ring@[m2].index,
                        self.ring@[m2].data,
                    )) by {
                        assert(self.ring@.contains(self.ring@[m2]));
                        if self.ring@[m2] != spend {
                            let qq = choose|qq: int|
                                pool0.len() - DECOYS as int <= qq < pool0.len() && pool0[qq]
                                    == self.ring@[m2];
                            assert(pre0.hist@.contains_pair(pool0[qq].index, pool0[qq].data));
                        }
                    }
                    assert(self.ring@.contains(self.reals@[cur]));
                }
            } else {
                let cur = self.done.len();
                let spend = self.reals[cur];
                let threshold = self.high * 2 / 3;
                if self.high > FRESHNESS_EXEMPT && self.ring[RING_LEN / 2].index < threshold {
                    let ghost pre = *self;
                    let ghost ring0 = self.ring@;
                    let ghost used0 = self.used@;
                    let mut ring_local: Vec<OutputRecord> = Vec::new();
                    mem::swap(&mut ring_local, &mut self.ring);
                    let mut used_local = UsedSet::new();
                    mem::swap(&mut used_local, &mut self.used);
                    drop_bottom(&mut ring_local, &mut used_local, spend);
                    mem::swap(&mut ring_local, &mut self.ring);
                    mem::swap(&mut used_local, &mut self.used);
                    proof {
                        assert forall|k: int|
                            0 <= k < self.reals@.len() implies self.used@.contains(
                            #[trigger] self.reals@[k].index) by {
                            assert(used0.contains(self.reals@[k].index));
                            if self.reals@[k].index != spend.index {
                                assert(!(exists|q: int|
                                    0 <= q < RING_LEN as int / 2 && ring0[q].index
                                        == self.reals@[k].index)) by {
                                    if exists|q: int|
                                        0 <= q < RING_LEN as int / 2 && ring0[q].index
                                            == self.reals@[k].index {
                                        let q = choose|q: int|
                                            0 <= q < RING_LEN as int / 2 && ring0[q].index
                                                == self.reals@[k].index;
                                        assert(pre.ring@[q] == pre.reals@[cur as int]
                                            || pre.ring_member_foreign(q));
                                        assert(pre.ring@[q].index != pre.reals@[k].index);
                                    }
                                }
                            }
                        }
                        assert forall|p: int|
                            0 <= p < self.pool@.len() implies self.used@.contains(
                            #[trigger] self.pool@[p].index) by {
                            assert(used0.contains(self.pool@[p].index));
                            assert(!(exists|q: int|
                                0 <= q < RING_LEN as int / 2 && ring0[q].index
                                    == self.pool@[p].index)) by {
                                if exists|q: int|
                                    0 <= q < RING_LEN as int / 2 && ring0[q].index
                                        == self.pool@[p].index {
                                    let q = choose|q: int|
                                        0 <= q < RING_LEN as int / 2 && ring0[q].index
                                            == self.pool@[p].index;
                                    assert(pre.ring@[q].index != pre.pool@[p].index);
                                }
                            }
                        }
                        assert forall|m: int|
                            0 <= m < self.ring@.len() implies self.used@.contains(
                            #[trigger] self.ring@[m].index) && (self.ring@[m]
                            == self.reals@[cur as int] || self.ring_member_foreign(m)) by {
                            assert(self.ring@.contains(self.ring@[m]));
                            if self.ring@[m] == spend {
                                assert(self.used@.contains(spend.index));
                            } else {
                                let q = choose|q: int|
                                    RING_LEN as int / 2 <= q < RING_LEN as int && ring0[q]
                                        == self.ring@[m];
                                assert(used0.contains(ring0[q].index));
                                assert(!(exists|qq: int|
                                    0 <= qq < RING_LEN as int / 2 && ring0[qq].index
                                        == ring0[q].index)) by {
                                    if exists|qq: int|
                                        0 <= qq < RING_LEN as int / 2 && ring0[qq].index
                                            == ring0[q].index {
                                        let qq = choose|qq: int|
                                            0 <= qq < RING_LEN as int / 2 && ring0[qq].index
                                                == ring0[q].index;
                                        assert(ring0[qq].index < ring0[q].index);
                                    }
                                }
                                assert(pre.ring@[q] == pre.reals@[cur as int]
                                    || pre.ring_member_foreign(q));
                                if pre.ring@[q] != pre.reals@[cur as int] {
                                    assert forall|k: int|
                                        0 <= k < self.reals@.len() implies self.ring@[m].index
                                        != #[trigger] self.reals@[k].index by {
                                        assert(pre.ring@[q].index != pre.reals@[k].index);
                                    }
                                }
                            }
                        }
                        assert forall|m: int, q: int|
                            #![trigger self.ring@[m], self.pool@[q]]
                            0 <= m < self.ring@.len() && 0 <= q < self.pool@.len()
                            implies self.ring@[m].index != self.pool@[q].index by {
                            assert(self.ring@.contains(self.ring@[m]));
                            if self.ring@[m] == spend {
                                assert(pre.pool@[q].index != pre.reals@[cur as int].index);
                            } else {
                                let mq = choose|mq: int|
                                    RING_LEN as int / 2 <= mq < RING_LEN as int && ring0[mq]
                                        == self.ring@[m];
                                assert(pre.ring@[mq].index != pre.pool@[q].index);
                            }
                        }
                        assert(used0.contains(spend.index));
                        assert forall|k: int, m: int|
                            #![trigger self.fin@[k][m]]
                            0 <= k < self.fin@.len() && 0 <= m < RING_LEN as int
                            implies self.used@.contains(self.fin@[k][m].index) by {
                            assert(used0.contains(pre.fin@[k][m].index));
                            if pre.fin@[k][m].index != spend.index {
                                assert(!(exists|q: int|
                                    0 <= q < RING_LEN as int / 2 && ring0[q].index
                                        == pre.fin@[k][m].index)) by {
                                    if exists|q: int|
                                        0 <= q < RING_LEN as int / 2 && ring0[q].index
                                            == pre.fin@[k][m].index {
                                        let q = choose|q: int|
                                            0 <= q < RING_LEN as int / 2 && ring0[q].index
                                                == pre.fin@[k][m].index;
                                        assert(pre.ring@[q] == pre.reals@[cur as int]
                                            || pre.ring@[q].index != pre.fin@[k][m].index);
                                    }
                                }
                            }
                        }
                        assert forall|m2: int, k: int, m: int|
                            #![trigger self.ring@[m2], self.fin@[k][m]]
                            0 <= m2 < self.ring@.len() && 0 <= k < self.fin@.len() && 0 <= m
                                < RING_LEN as int implies (self.ring@[m2]
                            == self.reals@[cur as int] || self.ring@[m2].index
                            != self.fin@[k][m].index) by {
                            assert(self.ring@.contains(self.ring@[m2]));
                            if self.ring@[m2] != spend {
                                let q = choose|q: int|
                                    RING_LEN as int / 2 <= q < RING_LEN as int && ring0[q]
                                        == self.ring@[m2];
                                assert(pre.ring@[q] == pre.reals@[cur as int]
                                    || pre.ring@[q].index != pre.fin@[k][m].index);
                            }
                        }
                        assert forall|m2: int|
                            0 <= m2 < self.ring@.len() implies (#[trigger] self.ring@[m2]
                            == self.reals@[cur as int] || self.hist@.contains_pair(
                            self.ring@[m2].index,
                            self.ring@[m2].data,
                        )) by {
                            assert(self.ring@.contains(self.ring@[m2]));
                            if self.ring@[m2] != spend {
                                let q = choose|q: int|
                                    RING_LEN as int / 2 <= q < RING_LEN as int && ring0[q]
                                        == self.ring@[m2];
                                assert(pre.ring@[q] == pre.reals@[cur as int]
                                    || pre.hist@.contains_pair(
                                    pre.ring@[q].index,
                                    pre.ring@[q].data,
                                ));
                            }
                        }
                    }
                    let need = RING_LEN - self.ring.len();
                    let ghost ub = self.used@;
                    match sample_candidates(
                        rng,
                        &self.dist,
                        self.high,
                        self.win_out,
                        self.win_sec,
                        &mut self.used,
                        need,
                    ) {
                        Ok(c) => {
                            proof {
                                assert forall|k: int|
                                    0 <= k < self.reals@.len() implies self.used@.contains(
                                    #[trigger] self.reals@[k].index) by {
                                    assert(ub.contains(self.reals@[k].index));
                                }
                                assert forall|p: int|
                                    0 <= p < self.pool@.len() implies self.used@.contains(
                                    #[trigger] self.pool@[p].index) by {
                                    assert(ub.contains(self.pool@[p].index));
                                }
                                assert forall|m: int|
                                    0 <= m < self.ring@.len() implies self.used@.contains(
                                    #[trigger] self.ring@[m].index) by {
                                    assert(ub.contains(self.ring@[m].index));
                                }
                                assert forall|p: int, q: int|
                                    #![trigger c@[p], self.pool@[q]]
                                    0 <= p < c@.len() && 0 <= q < self.pool@.len()
                                    implies c@[p] != self.pool@[q].index by {
                                    assert(ub.contains(self.pool@[q].index));
                                    assert(!ub.contains(c@[p]));
                                }
                                assert forall|p: int, k: int|
                                    #![trigger c@[p], self.reals@[k]]
                                    0 <= p < c@.len() && 0 <= k < self.reals@.len()
                                    implies c@[p] != self.reals@[k].index by {
                                    assert(ub.contains(self.reals@[k].index));
                                    assert(!ub.contains(c@[p]));
                                }
                                assert forall|p: int, m: int|
                                    #![trigger c@[p], self.ring@[m]]
                                    0 <= p < c@.len() && 0 <= m < self.ring@.len()
                                    implies c@[p] != self.ring@[m].index by {
                                    assert(ub.contains(self.ring@[m].index));
                                    assert(!ub.contains(c@[p]));
                                }
                                assert forall|k: int, m: int|
                                    #![trigger self.fin@[k][m]]
                                    0 <= k < self.fin@.len() && 0 <= m < RING_LEN as int
                                    implies self.used@.contains(self.fin@[k][m].index) by {
                                    assert(ub.contains(self.fin@[k][m].index));
                                }
                                assert forall|p: int, k: int, m: int|
                                    #![trigger c@[p], self.fin@[k][m]]
                                    0 <= p < c@.len() && 0 <= k < self.fin@.len() && 0 <= m
                                        < RING_LEN as int implies c@[p]
                                        != self.fin@[k][m].index by {
                                    assert(ub.contains(self.fin@[k][m].index));
                                    assert(!ub.contains(c@[p]));
                                }
                            }
                            self.pending = c;
                            self.phase = Phase::Repair;
                            return Ok(Step::NeedOutputs);
                        },
                        Err(e) => {
                            self.phase = Phase::Failed;
                            return Err(e);
                        },
                    }
                } else {
                    let ghost fpre = *self;
                    let ghost curg = self.done@.len() as int;
                    let ghost ringv = self.ring@;
                    let d = finalize_ring(&self.ring, spend, self.high);
                    self.done.push(d);
                    self.ring = Vec::new();
                    self.fin = Ghost(self.fin@.push(ringv));
                    proof {
                        let kn = self.fin@.len() - 1;
                        assert(self.fin@[kn] == ringv);
                        assert forall|m: int| 0 <= m < RING_LEN as int implies self.used@.contains(
                            (#[trigger] self.fin@[kn][m]).index,
                        ) && (self.fin@[kn][m] == self.reals@[kn] || self.fin_foreign(
                            kn,
                            m,
                        )) by {
                            assert(fpre.used@.contains(fpre.ring@[m].index));
                            assert(fpre.ring@[m] == fpre.reals@[curg] || fpre.ring_member_foreign(
                                m,
                            ));
                            if fpre.ring@[m] != fpre.reals@[curg] {
                                assert forall|k2: int|
                                    0 <= k2 < self.reals@.len() implies self.fin@[kn][m].index
                                    != (#[trigger] self.reals@[k2].index) by {
                                    assert(fpre.ring@[m].index != fpre.reals@[k2].index);
                                }
                            }
                        }
                        assert forall|k1: int, m1: int, k2: int, m2: int|
                            #![trigger self.fin@[k1][m1], self.fin@[k2][m2]]
                            0 <= k1 < self.fin@.len() && 0 <= k2 < self.fin@.len() && k1 != k2
                                && 0 <= m1 < RING_LEN as int && 0 <= m2 < RING_LEN as int
                                && self.fin@[k1][m1].index == self.fin@[k2][m2].index
                            implies self.fin@[k1][m1] == self.reals@[k1] && self.fin@[k2][m2]
                            == self.reals@[k2] by {
                            if k1 < kn && k2 < kn {
                                assert(fpre.fin@[k1][m1].index == fpre.fin@[k2][m2].index);
                            } else if k1 == kn {
                                assert(fpre.ring@[m1] == fpre.reals@[curg] || fpre.ring@[
                                    m1].index != fpre.fin@[k2][m2].index);
                                assert(fpre.fin@[k2][m2] == fpre.reals@[k2] || fpre.fin_foreign(
                                    k2,
                                    m2,
                                ));
                                if fpre.fin@[k2][m2] != fpre.reals@[k2] {
                                    assert(fpre.fin@[k2][m2].index != fpre.reals@[
                                        curg].index);
                                }
                            } else {
                                assert(fpre.ring@[m2] == fpre.reals@[curg] || fpre.ring@[
                                    m2].index != fpre.fin@[k1][m1].index);
                                assert(fpre.fin@[k1][m1] == fpre.reals@[k1] || fpre.fin_foreign(
                                    k1,
                                    m1,
                                ));
                                if fpre.fin@[k1][m1] != fpre.reals@[k1] {
                                    assert(fpre.fin@[k1][m1].index != fpre.reals@[
                                        curg].index);
                                }
                            }
                        }
                        assert forall|p: int, m: int|
                            0 <= p < self.pool@.len() && 0 <= m < RING_LEN as int implies (
                            #[trigger] self.pool@[p]).index != (
                            #[trigger] self.fin@[kn][m]).index by {
                            assert(fpre.ring@[m].index != fpre.pool@[p].index);
                        }
                        assert forall|m: int|
                            0 <= m < RING_LEN as int implies ((#[trigger] self.fin@[kn][m])
                            == self.reals@[kn] || self.hist@.contains_pair(
                            self.fin@[kn][m].index,
                            self.fin@[kn][m].data,
                        )) by {
                            assert(fpre.ring@[m] == fpre.reals@[curg]
                                || fpre.hist@.contains_pair(
                                fpre.ring@[m].index,
                                fpre.ring@[m].data,
                            ));
                        }
                        assert(self.pool@.len() == (self.reals@.len() - self.done@.len())
                            * DECOYS as int);
                    }
                }
            }
        }
    }
}

#[verifier::loop_isolation(false)]
fn build_ring(pool: &mut Vec<OutputRecord>, ring: &mut Vec<OutputRecord>, spend: OutputRecord)
    requires
        old(ring)@.len() == 0,
        old(pool)@.len() >= DECOYS as int,
        forall|p: int, q: int|
            0 <= p < q < old(pool)@.len() ==> old(pool)@[p].index != old(pool)@[q].index,
        forall|p: int| 0 <= p < old(pool)@.len() ==> old(pool)@[p].index != spend.index,
    ensures
        final(ring)@.len() == RING_LEN as int,
        sorted_strict(final(ring)@),
        final(pool)@ == old(pool)@.subrange(0, old(pool)@.len() - DECOYS as int),
        forall|y: OutputRecord| #[trigger]
            final(ring)@.contains(y) <==> (y == spend || exists|q: int|
                old(pool)@.len() - DECOYS as int <= q < old(pool)@.len() && old(pool)@[q] == y),
{
    let ghost pool0 = old(pool)@;
    insert_sorted(ring, spend);
    let mut t: usize = 0;
    while t < DECOYS
        invariant
            0 <= t <= DECOYS,
            pool@ == pool0.subrange(0, pool0.len() - t),
            ring@.len() == t + 1,
            sorted_strict(ring@),
            forall|y: OutputRecord| #[trigger]
                ring@.contains(y) <==> (y == spend || exists|q: int|
                    pool0.len() - t <= q < pool0.len() && pool0[q] == y),
        decreases DECOYS as int - t,
    {
        let last = pool.len() - 1;
        let e = pool[last];
        pool.truncate(last);
        proof {
            assert(pool@ =~= pool0.subrange(0, pool0.len() - (t + 1)));
            assert(e == pool0[pool0.len() - t - 1]);
            assert forall|k: int| 0 <= k < ring@.len() implies ring@[k].index != e.index by {
                assert(ring@.contains(ring@[k]));
                if ring@[k] != spend {
                    let q = choose|q: int|
                        pool0.len() - t <= q < pool0.len() && pool0[q] == ring@[k];
                    assert(pool0[pool0.len() - t - 1].index != pool0[q].index);
                }
            }
        }
        insert_sorted(ring, e);
        t = t + 1;
        proof {
            assert forall|y: OutputRecord| #[trigger]
                ring@.contains(y) <==> (y == spend || exists|q: int|
                    pool0.len() - t <= q < pool0.len() && pool0[q] == y) by {
                if ring@.contains(y) && y != spend {
                    if y == e {
                        assert(pool0[pool0.len() - t] == y);
                    } else {
                        let q = choose|q: int|
                            pool0.len() - (t - 1) <= q < pool0.len() && pool0[q] == y;
                        assert(pool0[q] == y);
                    }
                }
                if exists|q: int| pool0.len() - t <= q < pool0.len() && pool0[q] == y {
                    let q = choose|q: int| pool0.len() - t <= q < pool0.len() && pool0[q] == y;
                    if q == pool0.len() - t {
                        assert(y == e);
                    }
                }
            }
        }
    }
}

#[verifier::loop_isolation(false)]
fn extend_ring(ring: &mut Vec<OutputRecord>, confirmed: &Vec<OutputRecord>)
    requires
        sorted_strict(old(ring)@),
        forall|a: int, b: int|
            0 <= a < b < confirmed@.len() ==> confirmed@[a].index != confirmed@[b].index,
        forall|a: int, k: int|
            #![trigger confirmed@[a], old(ring)@[k]]
            0 <= a < confirmed@.len() && 0 <= k < old(ring)@.len() ==> confirmed@[a].index != old(
                ring,
            )@[k].index,
        old(ring)@.len() + confirmed@.len() <= RING_LEN as int,
    ensures
        final(ring)@.len() == old(ring)@.len() + confirmed@.len(),
        sorted_strict(final(ring)@),
        forall|y: OutputRecord| #[trigger]
            final(ring)@.contains(y) <==> (old(ring)@.contains(y) || confirmed@.contains(y)),
{
    let ghost ring0 = old(ring)@;
    let mut t: usize = 0;
    while t < confirmed.len()
        invariant
            0 <= t <= confirmed@.len(),
            ring@.len() == ring0.len() + t,
            sorted_strict(ring@),
            forall|y: OutputRecord| #[trigger]
                ring@.contains(y) <==> (ring0.contains(y) || exists|a: int|
                    0 <= a < t && confirmed@[a] == y),
        decreases confirmed@.len() - t,
    {
        let e = confirmed[t];
        proof {
            assert forall|k: int| 0 <= k < ring@.len() implies ring@[k].index != e.index by {
                assert(ring@.contains(ring@[k]));
                if ring0.contains(ring@[k]) {
                    let m = choose|m: int| 0 <= m < ring0.len() && ring0[m] == ring@[k];
                    assert(confirmed@[t as int].index != ring0[m].index);
                } else {
                    let a = choose|a: int| 0 <= a < t && confirmed@[a] == ring@[k];
                    assert(confirmed@[a].index != confirmed@[t as int].index);
                }
            }
        }
        insert_sorted(ring, e);
        t = t + 1;
        proof {
            assert forall|y: OutputRecord| #[trigger]
                ring@.contains(y) <==> (ring0.contains(y) || exists|a: int|
                    0 <= a < t && confirmed@[a] == y) by {
                if ring@.contains(y) && !ring0.contains(y) {
                    if y == e {
                        assert(confirmed@[t - 1] == y);
                    } else {
                        let a = choose|a: int| 0 <= a < t - 1 && confirmed@[a] == y;
                        assert(confirmed@[a] == y);
                    }
                }
                if exists|a: int| 0 <= a < t && confirmed@[a] == y {
                    let a = choose|a: int| 0 <= a < t && confirmed@[a] == y;
                    if a == t - 1 {
                        assert(y == e);
                    }
                }
            }
        }
    }
    proof {
        assert forall|y: OutputRecord| #[trigger]
            ring@.contains(y) <==> (ring0.contains(y) || confirmed@.contains(y)) by {
            if confirmed@.contains(y) {
                let a = choose|a: int| 0 <= a < confirmed@.len() && confirmed@[a] == y;
            }
            if ring@.contains(y) && !ring0.contains(y) {
                let a = choose|a: int| 0 <= a < confirmed@.len() && confirmed@[a] == y;
            }
        }
    }
}

#[verifier::loop_isolation(false)]
fn drop_bottom(ring: &mut Vec<OutputRecord>, used: &mut UsedSet, spend: OutputRecord)
    requires
        old(ring)@.len() == RING_LEN as int,
        sorted_strict(old(ring)@),
        old(ring)@.contains(spend),
    ensures
        sorted_strict(final(ring)@),
        RING_LEN as int / 2 + 1 <= final(ring)@.len() <= RING_LEN as int / 2 + 2,
        final(ring)@.contains(spend),
        forall|y: OutputRecord| #[trigger]
            final(ring)@.contains(y) <==> (y == spend || exists|q: int|
                RING_LEN as int / 2 <= q < RING_LEN as int && old(ring)@[q] == y),
        forall|x: u64| #[trigger] final(used)@.contains(x) ==> old(used)@.contains(x),
        old(used)@.contains(spend.index) ==> final(used)@.contains(spend.index),
        forall|x: u64|
            old(used)@.contains(x) && !(exists|q: int|
                0 <= q < RING_LEN as int / 2 && old(ring)@[q].index == x) ==> #[trigger] final(used)@.contains(x),
{
    let ghost ring0 = ring@;
    let ghost used0 = used@;
    let mut kept: Vec<OutputRecord> = Vec::new();
    let mut j: usize = RING_LEN / 2;
    while j < RING_LEN
        invariant
            RING_LEN as int / 2 <= j <= RING_LEN as int,
            kept@.len() == j - RING_LEN as int / 2,
            forall|a: int| 0 <= a < kept@.len() ==> kept@[a] == ring0[a + RING_LEN as int / 2],
        decreases RING_LEN as int - j,
    {
        kept.push(ring[j]);
        j = j + 1;
    }
    let mut dropped_real = false;
    let mut j2: usize = 0;
    while j2 < RING_LEN / 2
        invariant
            0 <= j2 <= RING_LEN as int / 2,
            dropped_real == exists|q: int| 0 <= q < j2 && ring0[q].index == spend.index,
            forall|x: u64| #[trigger] used@.contains(x) ==> used0.contains(x),
            used0.contains(spend.index) ==> used@.contains(spend.index),
            forall|x: u64|
                used0.contains(x) && !(exists|q: int|
                    0 <= q < j2 && ring0[q].index == x) ==> #[trigger] used@.contains(x),
        decreases RING_LEN as int / 2 - j2,
    {
        let e = ring[j2];
        if e.index == spend.index {
            dropped_real = true;
            proof {
                assert(ring0[j2 as int].index == spend.index);
            }
        } else {
            used.remove(e.index);
            proof {
                assert forall|x: u64|
                    used0.contains(x) && !(exists|q: int|
                        0 <= q < j2 + 1 && ring0[q].index == x) implies #[trigger] used@.contains(x) by {
                    assert(ring0[j2 as int].index != x);
                }
            }
        }
        j2 = j2 + 1;
    }
    let ghost keptv = kept@;
    *ring = kept;
    proof {
        assert forall|a: int, b: int|
            0 <= a < b < ring@.len() implies ring@[a].index < ring@[b].index by {
            assert(ring@[a] == ring0[a + RING_LEN as int / 2]);
            assert(ring@[b] == ring0[b + RING_LEN as int / 2]);
        }
    }
    if dropped_real {
        proof {
            let q = choose|q: int| 0 <= q < RING_LEN as int / 2 && ring0[q].index == spend.index;
            assert forall|k: int| 0 <= k < ring@.len() implies ring@[k].index != spend.index by {
                assert(ring@[k] == ring0[k + RING_LEN as int / 2]);
                assert(ring0[q].index < ring0[k + RING_LEN as int / 2].index);
            }
        }
        insert_sorted(ring, spend);
    } else {
        proof {
            let p = choose|p: int| 0 <= p < ring0.len() && ring0[p] == spend;
            assert(p >= RING_LEN as int / 2) by {
                if p < RING_LEN as int / 2 {
                    assert(ring0[p].index == spend.index);
                }
            }
            assert(ring@[p - RING_LEN as int / 2] == spend);
            assert(ring@.contains(spend));
        }
    }
    proof {
        assert forall|y: OutputRecord| #[trigger]
            ring@.contains(y) <==> (y == spend || exists|q: int|
                RING_LEN as int / 2 <= q < RING_LEN as int && ring0[q] == y) by {
            if ring@.contains(y) && y != spend {
                assert(keptv.contains(y));
                let a = choose|a: int| 0 <= a < keptv.len() && keptv[a] == y;
                assert(ring0[a + RING_LEN as int / 2] == y);
            }
            if exists|q: int| RING_LEN as int / 2 <= q < RING_LEN as int && ring0[q] == y {
                let q = choose|q: int|
                    RING_LEN as int / 2 <= q < RING_LEN as int && ring0[q] == y;
                assert(keptv[q - RING_LEN as int / 2] == y);
                assert(keptv.contains(y));
            }
        }
    }
}

} // verus!


