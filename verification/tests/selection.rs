use decoys::offsets::decode_offsets;
use decoys::sampler::RandomSource;
use decoys::select::{Selection, Step};
use decoys::{Decoys, OutputData, OutputRecord, SelectError};

/// Deterministic stand-in for the caller's random source: uniform words
/// count up from a seed, ages always land in the newest bracket.
struct CountingRng {
    next: u64,
}

impl RandomSource for CountingRng {
    fn random_u64(&mut self) -> u64 {
        let r = self.next;
        self.next = self.next + 1;
        r
    }

    fn age_offset(&mut self, _window_outputs: u64, _window_seconds: u64) -> u64 {
        0
    }
}

/// A source whose uniform word never changes: after its first accepted
/// candidate every further draw repeats an attempted index.
struct StuckRng;

impl RandomSource for StuckRng {
    fn random_u64(&mut self) -> u64 {
        700
    }

    fn age_offset(&mut self, _window_outputs: u64, _window_seconds: u64) -> u64 {
        0
    }
}

fn data_for(index: u64) -> OutputData {
    let mut key = [0u8; 32];
    let mut commitment = [0u8; 32];
    key[0] = index as u8;
    key[1] = (index >> 8) as u8;
    commitment[0] = 0xC0;
    commitment[1] = index as u8;
    OutputData { key, commitment }
}

fn record(index: u64) -> OutputRecord {
    OutputRecord { index, data: data_for(index) }
}

/// Drive one selection to completion, resolving every requested index via
/// `lookup`.
fn drive<R: RandomSource>(
    rng: &mut R,
    dist: Vec<u64>,
    reals: Vec<OutputRecord>,
    lookup: impl Fn(u64) -> Option<OutputData>,
) -> Result<Vec<Decoys>, SelectError> {
    let mut sel = Selection::start(dist, reals)?;
    let mut resolved: Vec<Option<OutputData>> = Vec::new();
    loop {
        match sel.step(rng, &resolved)? {
            Step::NeedOutputs => {
                resolved = sel.to_resolve().iter().map(|ix| lookup(*ix)).collect();
            }
            Step::Done(ds) => return Ok(ds),
        }
    }
}

fn reconstructed(d: &Decoys) -> Vec<u64> {
    decode_offsets(&d.offsets)
}

fn check_artifact(d: &Decoys, real: &OutputRecord) {
    // Eleven offsets, eleven ring members.
    assert_eq!(d.len(), 11);
    assert_eq!(d.offsets.len(), 11);
    assert_eq!(d.ring.len(), 11);
    let abs = reconstructed(d);
    // Strictly ascending, hence pairwise distinct.
    for m in 1..abs.len() {
        assert!(abs[m - 1] < abs[m]);
    }
    // The recorded position carries the real spend.
    let i = usize::from(d.i);
    assert!(i < 11);
    assert_eq!(abs[i], real.index);
    assert_eq!(d.ring[i], real.data);
    // The real spend appears exactly once.
    assert_eq!(abs.iter().filter(|&&x| x == real.index).count(), 1);
}

#[test]
fn two_inputs_full_rings() {
    // Plenty of fresh outputs: no repair round is needed, and both rings
    // pass the freshness rule.
    let reals = vec![record(100), record(200)];
    let mut rng = CountingRng { next: 700 };
    let ds = drive(&mut rng, vec![0, 1000], reals.clone(), |ix| Some(data_for(ix))).unwrap();
    assert_eq!(ds.len(), 2);
    check_artifact(&ds[0], &reals[0]);
    check_artifact(&ds[1], &reals[1]);
    // The freshness rule holds: the median of each ring is recent.
    for d in &ds {
        let abs = reconstructed(d);
        assert!(abs[5] >= 1000 * 2 / 3);
    }
    // No decoy is shared between the two rings, and neither real spend
    // serves as the other ring's decoy.
    let a = reconstructed(&ds[0]);
    let b = reconstructed(&ds[1]);
    for x in &a {
        assert!(!b.contains(x));
    }
    // Every ring member carries exactly the data the chain stub answered
    // (or the real spend's own data) for its absolute index.
    for d in &ds {
        let abs = reconstructed(d);
        for m in 0..11 {
            assert_eq!(d.ring[m], data_for(abs[m]));
        }
    }
}

#[test]
fn repair_raises_the_median() {
    // Candidates start far in the past, so rings are repaired until the
    // median clears two thirds of the total output count.
    let reals = vec![record(100), record(200)];
    let mut rng = CountingRng { next: 1 };
    let ds = drive(&mut rng, vec![0, 1000], reals.clone(), |ix| Some(data_for(ix))).unwrap();
    assert_eq!(ds.len(), 2);
    check_artifact(&ds[0], &reals[0]);
    check_artifact(&ds[1], &reals[1]);
    for d in &ds {
        let abs = reconstructed(d);
        assert!(abs[5] >= 1000 * 2 / 3);
    }
}

#[test]
fn small_chain_skips_freshness() {
    // Guard passes (100 - 60 >= 2 * 11) and the freshness rule is exempt,
    // so old outputs may dominate the rings.
    let reals = vec![record(10), record(20)];
    let mut rng = CountingRng { next: 1 };
    let ds = drive(&mut rng, vec![0, 100], reals.clone(), |ix| Some(data_for(ix))).unwrap();
    assert_eq!(ds.len(), 2);
    check_artifact(&ds[0], &reals[0]);
    check_artifact(&ds[1], &reals[1]);
    // With counting draws from 1 the rings hold the oldest outputs: the
    // median sits far below two thirds of the chain.
    let abs = reconstructed(&ds[0]);
    assert!(abs[5] < 100 * 2 / 3);
}

#[test]
fn insufficient_outputs_fails_before_sampling() {
    // Guard fails: 10 - 60 < 1 * 11.
    let r = Selection::start(vec![0, 10], vec![record(3)]);
    assert!(matches!(r, Err(SelectError::InsufficientOutputs)));
}

#[test]
fn empty_input_list_yields_no_decoys() {
    let mut rng = CountingRng { next: 1 };
    let ds = drive(&mut rng, vec![0, 1000], Vec::new(), |ix| Some(data_for(ix))).unwrap();
    assert!(ds.is_empty());
}

#[test]
fn stuck_random_source_exhausts() {
    let mut rng = StuckRng;
    let r = drive(&mut rng, vec![0, 1000], vec![record(500)], |ix| Some(data_for(ix)));
    assert!(matches!(r, Err(SelectError::Exhausted)));
}

#[test]
fn unresolved_candidates_are_resampled() {
    // The chain only confirms odd indices; the session keeps sampling
    // until eleven members stand, and never retries a failed index.
    let reals = vec![record(501)];
    let mut rng = CountingRng { next: 700 };
    let ds = drive(&mut rng, vec![0, 1000], reals.clone(), |ix| {
        if ix % 2 == 1 {
            Some(data_for(ix))
        } else {
            None
        }
    })
    .unwrap();
    assert_eq!(ds.len(), 1);
    check_artifact(&ds[0], &reals[0]);
    let abs = reconstructed(&ds[0]);
    for &x in &abs {
        assert!(x % 2 == 1);
    }
}

#[test]
fn selection_is_reproducible() {
    // A fixed random source, distribution and chain stub give identical
    // artifacts on every run.
    let reals = vec![record(100), record(200)];
    let mut rng1 = CountingRng { next: 1 };
    let ds1 = drive(&mut rng1, vec![0, 1000], reals.clone(), |ix| Some(data_for(ix))).unwrap();
    let mut rng2 = CountingRng { next: 1 };
    let ds2 = drive(&mut rng2, vec![0, 1000], reals.clone(), |ix| Some(data_for(ix))).unwrap();
    assert_eq!(ds1, ds2);
}

#[test]
fn multi_block_distribution_brackets() {
    // Several blocks with different output counts: decoys still form valid
    // rings on a chain whose brackets differ in size.
    let dist: Vec<u64> = vec![50, 50, 300, 600, 601, 1000];
    let reals = vec![record(42)];
    let mut rng = CountingRng { next: 900 };
    let ds = drive(&mut rng, dist, reals.clone(), |ix| Some(data_for(ix))).unwrap();
    assert_eq!(ds.len(), 1);
    check_artifact(&ds[0], &reals[0]);
}
