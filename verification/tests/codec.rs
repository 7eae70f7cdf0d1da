use decoys::offsets::{decode_offsets, offset};
use decoys::sampler::{is_valid_distribution, issuance_window, pick_candidate};
use decoys::usedset::UsedSet;

#[test]
fn offset_exact_values() {
    let ring: Vec<u64> = vec![1, 3, 6, 10, 15, 21, 28, 36, 45, 55, 66];
    let offs = offset(&ring);
    assert_eq!(offs, vec![1, 2, 3, 4, 5, 6, 7, 8, 9, 10, 11]);
}

#[test]
fn offset_round_trips() {
    let ring: Vec<u64> = vec![7, 9, 100, 101, 5000, 5001, 5002, 6000, 7000, 8000, 9001];
    let offs = offset(&ring);
    assert_eq!(offs.len(), ring.len());
    let back = decode_offsets(&offs);
    assert_eq!(back, ring);
}

#[test]
fn offset_round_trips_large_values() {
    let ring: Vec<u64> = vec![0, 1, 2, u64::MAX - 3, u64::MAX - 1, u64::MAX];
    let offs = offset(&ring);
    let back = decode_offsets(&offs);
    assert_eq!(back, ring);
}

#[test]
fn used_set_tracks_membership() {
    let mut used = UsedSet::new();
    assert!(!used.contains(42));
    used.insert(42);
    used.insert(7);
    assert!(used.contains(42));
    assert!(used.contains(7));
    assert!(!used.contains(8));
    used.remove(42);
    assert!(!used.contains(42));
    assert!(used.contains(7));
}

#[test]
fn distribution_validity() {
    assert!(is_valid_distribution(&vec![0, 0, 5, 5, 9]));
    assert!(is_valid_distribution(&vec![3]));
    assert!(!is_valid_distribution(&vec![]));
    assert!(!is_valid_distribution(&vec![4, 3]));
}

#[test]
fn issuance_window_short_chain() {
    // Two blocks, five outputs in the newest: the window is the whole chain.
    let w = issuance_window(&vec![5, 10]);
    assert_eq!(w, (5, 240));
}

#[test]
fn pick_candidate_lands_in_bracket() {
    // One real block holding outputs 0..1000; the uniform word picks 777.
    let d: Vec<u64> = vec![0, 1000];
    let mut used = UsedSet::new();
    let got = pick_candidate(&d, 1000, 0, 777, &mut used);
    assert_eq!(got, Some(777));
    assert!(used.contains(777));
    // The same draw again is rejected: 777 was marked as attempted.
    assert_eq!(pick_candidate(&d, 1000, 0, 777, &mut used), None);
}

#[test]
fn pick_candidate_rejects_out_of_range_age() {
    let d: Vec<u64> = vec![0, 1000];
    let mut used = UsedSet::new();
    assert_eq!(pick_candidate(&d, 1000, 1000, 3, &mut used), None);
    assert!(!used.contains(3));
}

#[test]
fn pick_candidate_rejects_empty_block() {
    // The bracket lands on a block that created no outputs.
    let d: Vec<u64> = vec![5, 5];
    let mut used = UsedSet::new();
    assert_eq!(pick_candidate(&d, 5, 0, 3, &mut used), None);
}
