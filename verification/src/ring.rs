//! Sorted rings of output records and the finished per-input artifact.
//!
//! A ring is kept sorted ascending by absolute index at all times; since
//! members are pairwise distinct, the sorted sequence is uniquely determined
//! by its members.

use vstd::prelude::*;

use crate::offsets::{
    ascending, as_ints, decoded, delta_encoded, lemma_delta_round_trip, offset,
};
use crate::{Decoys, OutputData, OutputRecord, FRESHNESS_EXEMPT, RING_LEN};

verus! {

/// Sorted strictly ascending by absolute index; implies pairwise distinct
/// members.
pub open spec fn sorted_strict(s: Seq<OutputRecord>) -> bool {
    forall|i: int, j: int| 0 <= i < j < s.len() ==> s[i].index < s[j].index
}

/// Insert a record whose index is not yet present, keeping the ring sorted.
pub fn insert_sorted(ring: &mut Vec<OutputRecord>, e: OutputRecord)
    requires
        sorted_strict(old(ring)@),
        forall|k: int| 0 <= k < old(ring)@.len() ==> old(ring)@[k].index != e.index,
        old(ring)@.len() < usize::MAX,
    ensures
        final(ring)@.len() == old(ring)@.len() + 1,
        sorted_strict(final(ring)@),
        forall|y: OutputRecord| #[trigger] final(ring)@.contains(y) <==> (old(ring)@.contains(y)
            || y == e),
{
    let ghost r0 = ring@;
    let mut pos: usize = 0;
    while pos < ring.len() && ring[pos].index < e.index
        invariant
            ring@ == r0,
            0 <= pos <= ring@.len(),
            forall|j: int| 0 <= j < pos ==> ring@[j].index < e.index,
        decreases ring@.len() - pos,
    {
        pos = pos + 1;
    }
    ring.insert(pos, e);
    proof {
        r0.insert_ensures(pos as int, e);
        assert forall|i: int, j: int|
            0 <= i < j < ring@.len() implies ring@[i].index < ring@[j].index by {
            if j < pos {
                assert(ring@[i] == r0[i] && ring@[j] == r0[j]);
            } else if i > pos {
                assert(ring@[i] == r0[i - 1] && ring@[j] == r0[j - 1]);
            } else if i < pos && j == pos {
                assert(ring@[i] == r0[i]);
            } else if i < pos && j > pos {
                assert(ring@[i] == r0[i] && ring@[j] == r0[j - 1]);
                assert(r0[i].index < e.index);
                if j - 1 >= pos {
                    assert(r0[j - 1].index != e.index);
                    if j - 1 == pos && pos < r0.len() {
                        assert(r0[pos as int].index >= e.index);
                    }
                }
            } else if i == pos && j > pos {
                assert(ring@[j] == r0[j - 1]);
                assert(r0[j - 1].index >= e.index);
                assert(r0[j - 1].index != e.index);
            }
        }
        assert forall|y: OutputRecord| #[trigger] ring@.contains(y) <==> (r0.contains(y) || y
            == e) by {
            if ring@.contains(y) {
                let k = choose|k: int| 0 <= k < ring@.len() && ring@[k] == y;
                if k < pos {
                    assert(r0[k] == y);
                } else if k == pos {
                    assert(y == e);
                } else {
                    assert(r0[k - 1] == y);
                }
            }
            if r0.contains(y) {
                let k = choose|k: int| 0 <= k < r0.len() && r0[k] == y;
                if k < pos {
                    assert(ring@[k] == y);
                } else {
                    assert(ring@[k + 1] == y);
                }
            }
            if y == e {
                assert(ring@[pos as int] == y);
            }
        }
    }
}

/// The position of the record carrying `real_index` in a sorted ring: the
/// insertion point of the real spend's index.
pub fn position_of(ring: &Vec<OutputRecord>, real_index: u64) -> (i: usize)
    requires
        sorted_strict(ring@),
        exists|k: int| 0 <= k < ring@.len() && ring@[k].index == real_index,
    ensures
        i < ring@.len(),
        ring@[i as int].index == real_index,
        forall|j: int| 0 <= j < i ==> ring@[j].index < real_index,
{
    let ghost k0 = choose|k: int| 0 <= k < ring@.len() && ring@[k].index == real_index;
    let n = ring.len();
    let mut i: usize = 0;
    while ring[i].index != real_index
        invariant
            ring@.len() == n as int,
            0 <= i <= k0,
            0 <= k0 < ring@.len() && ring@[k0].index == real_index,
            sorted_strict(ring@),
            forall|j: int| 0 <= j < i ==> ring@[j].index != real_index,
        decreases ring@.len() - i,
    {
        proof {
            assert(i as int != k0);
        }
        i = i + 1;
    }
    proof {
        assert forall|j: int| 0 <= j < i implies ring@[j].index < real_index by {
            assert(ring@[j].index < ring@[i as int].index);
        }
    }
    i
}

/// What a produced artifact states about its real spend: eleven offsets and
/// eleven ring members; the reconstructed absolute indices strictly ascend
/// (hence are pairwise distinct); position `i` carries the real spend's
/// index and opaque data, and everything before it is lower; and on chains
/// above the freshness exemption the reconstructed median is at least two
/// thirds of the total output count.
pub open spec fn decoys_wf(d: Decoys, spend: OutputRecord, high: u64) -> bool {
    &&& d.offsets@.len() == RING_LEN as int
    &&& d.ring@.len() == RING_LEN as int
    &&& ascending(decoded(d.offsets@))
    &&& forall|m: int| 0 <= m < RING_LEN as int ==> 0 <= #[trigger] decoded(d.offsets@)[m]
        <= u64::MAX
    &&& (d.i as int) < RING_LEN as int
    &&& d.ring@[d.i as int] == spend.data
    &&& decoded(d.offsets@)[d.i as int] == spend.index as int
    &&& forall|j: int| 0 <= j < d.i as int ==> #[trigger] decoded(d.offsets@)[j] < spend.index as int
    &&& (high > FRESHNESS_EXEMPT ==> decoded(d.offsets@)[RING_LEN as int / 2] >= high as int * 2
        / 3)
}

/// Law: no two entries of one artifact's reconstructed absolute-index
/// sequence are equal.
pub proof fn lemma_ring_indices_distinct(d: Decoys, spend: OutputRecord, high: u64)
    requires
        decoys_wf(d, spend, high),
    ensures
        forall|i: int, j: int|
            0 <= i < RING_LEN as int && 0 <= j < RING_LEN as int && i != j ==> decoded(
                d.offsets@,
            )[i] != decoded(d.offsets@)[j],
{
    crate::offsets::lemma_ascending_distinct(decoded(d.offsets@));
}

/// Turn a finished sorted ring into the published artifact.
pub fn finalize_ring(ring: &Vec<OutputRecord>, spend: OutputRecord, high: u64) -> (d: Decoys)
    requires
        ring@.len() == RING_LEN as int,
        sorted_strict(ring@),
        ring@.contains(spend),
        high > FRESHNESS_EXEMPT ==> ring@[RING_LEN as int / 2].index >= high as int * 2 / 3,
    ensures
        decoys_wf(d, spend, high),
        forall|m: int|
            0 <= m < RING_LEN as int ==> #[trigger] decoded(d.offsets@)[m] == ring@[m].index as int,
        forall|m: int| 0 <= m < RING_LEN as int ==> #[trigger] d.ring@[m] == ring@[m].data,
{
    let mut idxs: Vec<u64> = Vec::new();
    let mut data: Vec<OutputData> = Vec::new();
    let mut k: usize = 0;
    while k < ring.len()
        invariant
            0 <= k <= ring@.len(),
            idxs@.len() == k as int,
            data@.len() == k as int,
            forall|j: int| 0 <= j < k ==> idxs@[j] == ring@[j].index,
            forall|j: int| 0 <= j < k ==> data@[j] == ring@[j].data,
        decreases ring@.len() - k,
    {
        idxs.push(ring[k].index);
        data.push(ring[k].data);
        k = k + 1;
    }
    proof {
        assert(exists|p: int| 0 <= p < ring@.len() && ring@[p].index == spend.index) by {
            let p = choose|p: int| 0 <= p < ring@.len() && ring@[p] == spend;
            assert(ring@[p].index == spend.index);
        }
        assert(ascending(as_ints(idxs@)));
    }
    let i = position_of(ring, spend.index);
    proof {
        let p = choose|p: int| 0 <= p < ring@.len() && ring@[p] == spend;
        if p != i as int {
            if p < i as int {
                assert(ring@[p].index < ring@[i as int].index);
            } else {
                assert(ring@[i as int].index < ring@[p].index);
            }
        }
        assert(ring@[i as int] == spend);
    }
    let offs = offset(&idxs);
    proof {
        lemma_delta_round_trip(idxs@);
        assert(offs@ == delta_encoded(idxs@));
        assert forall|m: int| 0 <= m < RING_LEN as int implies #[trigger] decoded(offs@)[m]
            == idxs@[m] as int by {
            assert(decoded(delta_encoded(idxs@))[m] == as_ints(idxs@)[m]);
        }
    }
    Decoys { i: i as u8, offsets: offs, ring: data }
}

} // verus!
