//! Delta encoding of the sorted absolute indices of a ring.
//!
//! A ring's member indices are published compactly: the first entry is the
//! lowest absolute index, every later entry is the difference to its
//! predecessor. Prefix-summing the encoding recovers the absolute indices.

use vstd::prelude::*;

verus! {

/// The entries of `s` as mathematical integers.
pub open spec fn as_ints(s: Seq<u64>) -> Seq<int> {
    Seq::new(s.len(), |i: int| s[i] as int)
}

/// Strictly ascending: every entry is below every later one.
pub open spec fn ascending(s: Seq<int>) -> bool {
    forall|i: int, j: int| 0 <= i < j < s.len() ==> s[i] < s[j]
}

/// The delta encoding of an ascending index sequence.
pub open spec fn delta_encoded(ring: Seq<u64>) -> Seq<u64> {
    Seq::new(ring.len(), |m: int| if m == 0 {
        ring[0]
    } else {
        (ring[m] - ring[m - 1]) as u64
    })
}

/// Sum of the first `n` entries of `offs`.
pub open spec fn sum_first(offs: Seq<u64>, n: nat) -> int
    decreases n,
{
    if n == 0 {
        0
    } else {
        sum_first(offs, (n - 1) as nat) + offs[n - 1]
    }
}

/// The absolute indices recovered from a delta encoding: entry `m` is the
/// sum of the first `m + 1` deltas.
pub open spec fn decoded(offs: Seq<u64>) -> Seq<int> {
    Seq::new(offs.len(), |m: int| sum_first(offs, (m + 1) as nat))
}

/// Law: a strictly ascending sequence has pairwise distinct entries.
pub proof fn lemma_ascending_distinct(s: Seq<int>)
    requires
        ascending(s),
    ensures
        forall|i: int, j: int|
            0 <= i < s.len() && 0 <= j < s.len() && i != j ==> s[i] != s[j],
{
    assert forall|i: int, j: int|
        0 <= i < s.len() && 0 <= j < s.len() && i != j implies s[i] != s[j] by {
        if i < j {
            assert(s[i] < s[j]);
        } else {
            assert(s[j] < s[i]);
        }
    }
}

proof fn lemma_decode_delta_entry(xs: Seq<u64>, m: int)
    requires
        0 <= m < xs.len(),
        ascending(as_ints(xs)),
    ensures
        sum_first(delta_encoded(xs), (m + 1) as nat) == xs[m],
    decreases m,
{
    if m == 0 {
        assert(sum_first(delta_encoded(xs), 0) == 0);
        assert(sum_first(delta_encoded(xs), 1) == delta_encoded(xs)[0]);
    } else {
        lemma_decode_delta_entry(xs, m - 1);
        assert(as_ints(xs)[m - 1] < as_ints(xs)[m]);
        assert(delta_encoded(xs)[m] == (xs[m] - xs[m - 1]) as u64);
    }
}

/// Law: delta encoding round-trips. For any strictly ascending index
/// sequence, decoding its delta encoding yields the sequence itself.
pub proof fn lemma_delta_round_trip(xs: Seq<u64>)
    requires
        ascending(as_ints(xs)),
    ensures
        decoded(delta_encoded(xs)) =~= as_ints(xs),
{
    assert forall|m: int| 0 <= m < xs.len() implies decoded(delta_encoded(xs))[m]
        == as_ints(xs)[m] by {
        lemma_decode_delta_entry(xs, m);
    }
}

/// Delta-encode the ascending absolute indices of a ring.
pub fn offset(ring: &Vec<u64>) -> (res: Vec<u64>)
    requires
        ring@.len() >= 1,
        ascending(as_ints(ring@)),
    ensures
        res@ =~= delta_encoded(ring@),
{
    let mut res: Vec<u64> = Vec::new();
    res.push(ring[0]);
    let mut m: usize = 1;
    while m < ring.len()
        invariant
            1 <= m <= ring@.len(),
            ascending(as_ints(ring@)),
            res@.len() == m as int,
            forall|j: int| 0 <= j < m ==> res@[j] == delta_encoded(ring@)[j],
        decreases ring@.len() - m,
    {
        assert(as_ints(ring@)[m - 1] < as_ints(ring@)[m as int]);
        res.push(ring[m] - ring[m - 1]);
        m = m + 1;
    }
    res
}

/// Recover the absolute indices from a delta encoding by prefix summing.
pub fn decode_offsets(offs: &Vec<u64>) -> (res: Vec<u64>)
    requires
        offs@.len() >= 1,
        forall|n: nat| 1 <= n <= offs@.len() ==> #[trigger] sum_first(offs@, n) <= u64::MAX,
    ensures
        as_ints(res@) =~= decoded(offs@),
{
    let mut res: Vec<u64> = Vec::new();
    let mut acc: u64 = 0;
    let mut m: usize = 0;
    while m < offs.len()
        invariant
            0 <= m <= offs@.len(),
            res@.len() == m as int,
            acc == sum_first(offs@, m as nat),
            forall|n: nat| 1 <= n <= offs@.len() ==> #[trigger] sum_first(offs@, n) <= u64::MAX,
            forall|j: int| 0 <= j < m ==> res@[j] == sum_first(offs@, (j + 1) as nat),
        decreases offs@.len() - m,
    {
        assert(sum_first(offs@, (m + 1) as nat) == sum_first(offs@, m as nat) + offs@[m as int]);
        acc = acc + offs[m];
        res.push(acc);
        m = m + 1;
    }
    res
}

} // verus!
