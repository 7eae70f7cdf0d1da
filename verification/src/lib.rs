//! Selection of decoy outputs for ring-signature transactions.
//!
//! Given the real outputs a wallet intends to spend, the library assembles,
//! for each, a sorted ring of `RING_LEN` outputs that hides the real spend
//! among plausible decoys: candidate indices are drawn age-biased from the
//! chain's cumulative output distribution, confirmed against the chain, and
//! each ring is repaired until its median satisfies the freshness rule.
//! Chain lookups and randomness are supplied by the caller: a [`select::Selection`]
//! session asks for batches of indices to resolve, and random draws enter
//! through the [`sampler::RandomSource`] trait.

use vstd::prelude::*;

pub mod offsets;
pub mod ring;
pub mod sampler;
pub mod select;
pub mod usedset;

verus! {

/// Number of members in a ring: one real spend and `DECOYS` decoys.
pub const RING_LEN: usize = 11;

/// Decoys per ring: `RING_LEN` less the real spend.
pub const DECOYS: usize = 10;

/// Outputs created within this many blocks of the tip are too young to spend.
pub const MATURITY: u64 = 60;

/// Seconds per block.
pub const BLOCK_TIME: u64 = 120;

/// Number of blocks in one year of chain time.
pub const BLOCKS_PER_YEAR: usize = 365 * 24 * 60 * 60 / 120;

/// Chains whose total output count is at or below this bound are exempt
/// from the ring-freshness rule.
pub const FRESHNESS_EXEMPT: u64 = 500;

/// The opaque data of one chain output: its one-time key and its amount
/// commitment, carried as uninterpreted bytes.
#[derive(Clone, Copy, PartialEq, Eq, Debug)]
pub struct OutputData {
    pub key: [u8; 32],
    pub commitment: [u8; 32],
}

/// One chain output: its chain-global index and its opaque data.
#[derive(Clone, Copy, PartialEq, Eq, Debug)]
pub struct OutputRecord {
    pub index: u64,
    pub data: OutputData,
}

/// The artifact produced per real input: the real spend's position in the
/// sorted ring, the delta-encoded absolute indices of the ring members, and
/// the ring's opaque data in ascending index order.
#[derive(Clone, PartialEq, Debug)]
pub struct Decoys {
    pub i: u8,
    pub offsets: Vec<u64>,
    pub ring: Vec<OutputData>,
}

impl Decoys {
    pub fn len(&self) -> (r: usize)
        ensures
            r == self.offsets@.len(),
    {
        self.offsets.len()
    }
}

/// Why a selection cannot be completed.
#[derive(Clone, Copy, PartialEq, Eq, Debug)]
pub enum SelectError {
    /// The chain does not hold enough mature outputs to build rings for the
    /// requested inputs; reported before any sampling is attempted.
    InsufficientOutputs,
    /// The sampling attempt budget ran out before enough distinct candidate
    /// indices were found.
    Exhausted,
}

} // verus!
