//! Age-biased sampling of candidate absolute indices.
//!
//! A draw from a heavy-tailed age distribution, scaled by the chain's
//! issuance rate, gives an offset from the newest output; the cumulative
//! output distribution maps that offset to the block whose bracket contains
//! it, and a uniform draw picks a concrete index within that block's
//! outputs. Indices already attempted are rejected.

use vstd::prelude::*;

use crate::usedset::UsedSet;
use crate::SelectError;
use crate::BLOCKS_PER_YEAR;
use crate::BLOCK_TIME;

verus! {

broadcast use vstd::seq_lib::lemma_seq_contains_after_push;

/// Supplies the randomness of one selection call. The original draws come
/// from a caller-owned cryptographically secure generator; nothing is
/// assumed of the values, so every contract of this library holds for any
/// implementation.
pub trait RandomSource {
    /// A random word, used to pick one output within a block's bracket.
    fn random_u64(&mut self) -> u64;

    /// A draw from the heavy-tailed output-age distribution, already
    /// converted to an offset from the newest output: the sampled age in
    /// seconds times the issuance rate `window_outputs / window_seconds`.
    fn age_offset(&mut self, window_outputs: u64, window_seconds: u64) -> u64;
}

/// Every entry is at most every later one.
pub open spec fn non_decreasing(d: Seq<u64>) -> bool {
    forall|i: int, j: int| 0 <= i <= j < d.len() ==> d[i] <= d[j]
}

/// A well-formed cumulative output distribution whose total count is `high`.
pub open spec fn valid_distribution(d: Seq<u64>, high: u64) -> bool {
    &&& d.len() >= 1
    &&& non_decreasing(d)
    &&& d[d.len() - 1] == high
}

/// Whether a distribution is usable: nonempty and non-decreasing.
pub fn is_valid_distribution(d: &Vec<u64>) -> (r: bool)
    ensures
        r == (d@.len() >= 1 && non_decreasing(d@)),
{
    if d.len() == 0 {
        return false;
    }
    let mut i: usize = 1;
    while i < d.len()
        invariant
            1 <= i <= d@.len(),
            forall|p: int, q: int| 0 <= p <= q < i ==> d@[p] <= d@[q],
        decreases d@.len() - i,
    {
        if d[i - 1] > d[i] {
            return false;
        }
        proof {
            assert forall|p: int, q: int| 0 <= p <= q < i + 1 implies d@[p] <= d@[q] by {
                if q == i && p < q {
                    assert(d@[p] <= d@[i - 1]);
                }
            }
        }
        i = i + 1;
    }
    true
}

/// The index of the last block of the issuance window for a distribution of
/// `len` blocks: at most one year of blocks.
pub open spec fn window_blocks(len: int) -> int {
    if len <= BLOCKS_PER_YEAR {
        len
    } else {
        BLOCKS_PER_YEAR as int
    }
}

/// The distribution entry just before the issuance window begins.
pub open spec fn window_start(len: int) -> int {
    if len >= window_blocks(len) + 1 {
        len - (window_blocks(len) + 1)
    } else {
        0
    }
}

/// The data of the issuance-rate estimate: outputs created within the most
/// recent year of blocks (or the whole chain if shorter), and that window's
/// length in seconds.
pub fn issuance_window(d: &Vec<u64>) -> (w: (u64, u64))
    requires
        d@.len() >= 1,
        non_decreasing(d@),
    ensures
        w.0 == d@[d@.len() - 1] - d@[window_start(d@.len() as int)],
        w.1 == window_blocks(d@.len() as int) * BLOCK_TIME,
        w.1 >= 1,
{
    let len = d.len();
    let blocks: usize = if len <= BLOCKS_PER_YEAR {
        len
    } else {
        BLOCKS_PER_YEAR
    };
    let from: usize = if len >= blocks + 1 {
        len - (blocks + 1)
    } else {
        0
    };
    assert(d@[from as int] <= d@[len - 1]);
    let outs = d[len - 1] - d[from];
    let secs = (blocks as u64) * BLOCK_TIME;
    (outs, secs)
}

/// `i` is the partition point of `d` for `target`: all earlier entries are
/// below `target`, and the entry at `i`, if any, is not.
pub open spec fn is_bracket(d: Seq<u64>, target: u64, i: int) -> bool {
    &&& 0 <= i <= d.len()
    &&& forall|j: int| 0 <= j < i ==> d[j] < target
    &&& (i < d.len() ==> d[i] >= target)
}

/// The partition point of `d` for `target`.
pub open spec fn bracket(d: Seq<u64>, target: u64) -> int {
    choose|i: int| is_bracket(d, target, i)
}

/// The partition point is unique, so `bracket` returns exactly it.
pub proof fn lemma_bracket_unique(d: Seq<u64>, target: u64, i: int)
    requires
        is_bracket(d, target, i),
    ensures
        bracket(d, target) == i,
{
    assert(is_bracket(d, target, bracket(d, target)));
    let k = bracket(d, target);
    if k < i {
        assert(d[k] < target);
        assert(d[k] >= target);
    }
    if i < k {
        assert(d[i] < target);
    }
}

fn bracket_index(d: &Vec<u64>, target: u64) -> (i: usize)
    requires
        non_decreasing(d@),
    ensures
        is_bracket(d@, target, i as int),
{
    let mut lo: usize = 0;
    let mut hi: usize = d.len();
    while lo < hi
        invariant
            0 <= lo <= hi <= d@.len(),
            non_decreasing(d@),
            forall|j: int| 0 <= j < lo ==> d@[j] < target,
            forall|j: int| hi <= j < d@.len() ==> d@[j] >= target,
        decreases hi - lo,
    {
        let mid = lo + (hi - lo) / 2;
        if d[mid] < target {
            proof {
                assert forall|j: int| 0 <= j < mid + 1 implies d@[j] < target by {
                    assert(d@[j] <= d@[mid as int]);
                }
            }
            lo = mid + 1;
        } else {
            proof {
                assert forall|j: int| mid <= j < d@.len() implies d@[j] >= target by {
                    assert(d@[mid as int] <= d@[j]);
                }
            }
            hi = mid;
        }
    }
    lo
}

/// The candidate index determined by an age offset `o` and a uniform word
/// `r`: the block whose cumulative bracket contains the offset `o` from the
/// newest output, and within that block the output picked by `r`. `None`
/// when the offset reaches before genesis or the block created no outputs.
pub open spec fn candidate_of(d: Seq<u64>, high: u64, o: u64, r: u64) -> Option<u64> {
    if o >= high {
        Option::None
    } else {
        let target = (high - 1 - o) as u64;
        let i = bracket(d, target);
        let prev = if i == 0 { 0int } else { i - 1 };
        if d[i] == d[prev] {
            Option::None
        } else {
            Option::Some((d[prev] + r as int % (d[i] - d[prev])) as u64)
        }
    }
}

/// One sampling attempt. Turns a draw into a candidate index, rejecting it
/// if it was attempted before; an accepted candidate is entered into `used`
/// so it is never retried.
pub fn pick_candidate(d: &Vec<u64>, high: u64, o: u64, r: u64, used: &mut UsedSet) -> (res: Option<
    u64,
>)
    requires
        valid_distribution(d@, high),
    ensures
        match candidate_of(d@, high, o, r) {
            Option::Some(c) => {
                if old(used)@.contains(c) {
                    res == Option::<u64>::None && final(used)@ == old(used)@
                } else {
                    res == Option::Some(c) && final(used)@ == old(used)@.insert(c)
                }
            },
            Option::None => res == Option::<u64>::None && final(used)@ == old(used)@,
        },
        match res {
            Option::Some(c) => c < high && !old(used)@.contains(c) && final(used)@ == old(
                used,
            )@.insert(c),
            Option::None => final(used)@ == old(used)@,
        },
{
    if o >= high {
        return None;
    }
    let target = high - 1 - o;
    let i = bracket_index(d, target);
    proof {
        lemma_bracket_unique(d@, target, i as int);
        assert(i < d@.len()) by {
            if i == d@.len() {
                assert(d@[d@.len() - 1] < target);
            }
        }
    }
    let prev = if i == 0 { 0 } else { i - 1 };
    assert(d@[prev as int] <= d@[i as int]);
    let n = d[i] - d[prev];
    if n == 0 {
        return None;
    }
    assert(d@[prev as int] + r as int % (d@[i as int] - d@[prev as int]) < d@[i as int]);
    let c = d[prev] + (r % n);
    assert(c < high) by {
        assert(d@[i as int] <= d@[d@.len() - 1]);
    }
    if used.contains(c) {
        return None;
    }
    used.insert(c);
    Some(c)
}

/// Sample `count` fresh, pairwise distinct candidate indices, none attempted
/// before this call. Draws that fall outside the chain, hit an empty block
/// or repeat an attempted index are discarded and retried; the attempt
/// budget converts a chain too sparse to serve the request into
/// [`SelectError::Exhausted`] instead of a livelock.
pub fn sample_candidates<R: RandomSource>(
    rng: &mut R,
    d: &Vec<u64>,
    high: u64,
    window_outputs: u64,
    window_seconds: u64,
    used: &mut UsedSet,
    count: usize,
) -> (res: Result<Vec<u64>, SelectError>)
    requires
        valid_distribution(d@, high),
    ensures
        old(used)@.subset_of(final(used)@),
        count == 0 ==> res is Ok,
        match res {
            Result::Ok(cands) => {
                &&& cands@.len() == count as int
                &&& forall|k: int| 0 <= k < cands@.len() ==> #[trigger] cands@[k] < high
                &&& forall|k: int|
                    0 <= k < cands@.len() ==> !old(used)@.contains(#[trigger] cands@[k])
                &&& forall|k: int|
                    0 <= k < cands@.len() ==> final(used)@.contains(#[trigger] cands@[k])
                &&& forall|k: int, l: int|
                    0 <= k < l < cands@.len() ==> cands@[k] != cands@[l]
                &&& forall|x: u64|
                    final(used)@.contains(x) ==> old(used)@.contains(x) || cands@.contains(x)
            },
            Result::Err(e) => e == SelectError::Exhausted,
        },
{
    let ghost u0: Set<u64> = used@;
    let mut cands: Vec<u64> = Vec::new();
    let limit: u128 = (count as u128) * 64 + 4096;
    let mut attempts: u128 = 0;
    while cands.len() < count
        invariant
            valid_distribution(d@, high),
            u0 == old(used)@,
            attempts <= limit,
            cands@.len() <= count as int,
            forall|k: int| 0 <= k < cands@.len() ==> #[trigger] cands@[k] < high,
            forall|k: int| 0 <= k < cands@.len() ==> !u0.contains(#[trigger] cands@[k]),
            forall|k: int| 0 <= k < cands@.len() ==> used@.contains(#[trigger] cands@[k]),
            forall|k: int, l: int| 0 <= k < l < cands@.len() ==> cands@[k] != cands@[l],
            u0.subset_of(used@),
            forall|x: u64| used@.contains(x) ==> u0.contains(x) || cands@.contains(x),
        decreases limit - attempts,
    {
        if attempts >= limit {
            return Err(SelectError::Exhausted);
        }
        attempts = attempts + 1;
        let o = rng.age_offset(window_outputs, window_seconds);
        let r = rng.random_u64();
        let ghost before: Set<u64> = used@;
        let picked = pick_candidate(d, high, o, r, used);
        match picked {
            Some(c) => {
                proof {
                    assert(!before.contains(c));
                    assert(!u0.contains(c));
                    assert forall|k: int| 0 <= k < cands@.len() implies cands@[k] != c by {
                        assert(before.contains(cands@[k]));
                    }
                }
                cands.push(c);
            },
            None => {},
        }
    }
    Ok(cands)
}

} // verus!
