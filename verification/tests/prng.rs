use ironnest::prng::Prng;

#[test]
fn same_seed_same_stream() {
    let mut a = Prng::seed_from_u64(42);
    let mut b = Prng::seed_from_u64(42);
    for _ in 0..1000 {
        assert_eq!(a.next_u64(), b.next_u64());
    }
}

#[test]
fn different_seeds_diverge() {
    let mut a = Prng::seed_from_u64(1);
    let mut b = Prng::seed_from_u64(2);
    assert_ne!(a.next_u64(), b.next_u64());
}

#[test]
fn below_in_range_and_covers() {
    let mut p = Prng::seed_from_u64(9);
    let mut seen = [false; 4];
    for _ in 0..1000 {
        let i = p.below(4);
        assert!(i < 4);
        seen[i] = true;
    }
    assert!(seen.iter().all(|&s| s), "all 4 indices should appear");
}

#[test]
fn shuffle_is_deterministic_and_a_permutation() {
    let mut a: Vec<u32> = (0..50).collect();
    let mut b = a.clone();
    Prng::seed_from_u64(123).shuffle(&mut a);
    Prng::seed_from_u64(123).shuffle(&mut b);
    assert_eq!(a, b, "same seed → same permutation");

    // The result is a permutation of the input (no elements lost/duplicated).
    let mut sorted = a.clone();
    sorted.sort_unstable();
    assert_eq!(sorted, (0..50).collect::<Vec<_>>());

    // A different seed gives a different order (overwhelmingly likely for 50 elements).
    let mut c: Vec<u32> = (0..50).collect();
    Prng::seed_from_u64(124).shuffle(&mut c);
    assert_ne!(a, c);
}

#[test]
fn seed_42_reference_stream() {
    let mut p = Prng::seed_from_u64(42);
    assert_eq!(p.next_u64(), 11620387309949491740);
    assert_eq!(p.next_u64(), 10988228552729526778);
    assert_eq!(p.next_u64(), 11285755695503699069);
}

#[test]
fn seed_0_is_well_mixed() {
    let mut p = Prng::seed_from_u64(0);
    assert_eq!(p.next_u64(), 12240449351142765774);
    assert_eq!(p.next_u64(), 3607299245349429765);
}

#[test]
fn below_reference_draws() {
    let mut p = Prng::seed_from_u64(9);
    let draws: Vec<usize> = (0..10).map(|_| p.below(4)).collect();
    assert_eq!(draws, vec![2, 3, 0, 1, 3, 3, 3, 3, 0, 2]);
    let mut q = Prng::seed_from_u64(7);
    let draws: Vec<usize> = (0..5).map(|_| q.below(1000)).collect();
    assert_eq!(draws, vec![182, 627, 486, 244, 303]);
}

#[test]
fn below_one_is_always_zero() {
    let mut p = Prng::seed_from_u64(5);
    for _ in 0..100 {
        assert_eq!(p.below(1), 0);
    }
}

#[test]
fn shuffle_reference_permutation() {
    let mut a: Vec<u32> = (0..10).collect();
    Prng::seed_from_u64(123).shuffle(&mut a);
    assert_eq!(a, vec![6, 2, 5, 3, 0, 7, 9, 1, 8, 4]);
}

#[test]
fn shuffle_of_empty_and_single_draws_nothing() {
    let mut p = Prng::seed_from_u64(3);
    let mut reference = Prng::seed_from_u64(3);
    let mut empty: Vec<u8> = vec![];
    p.shuffle(&mut empty);
    let mut one = vec![7u8];
    p.shuffle(&mut one);
    assert_eq!(one, vec![7]);
    // no draws were consumed
    assert_eq!(p.next_u64(), reference.next_u64());
}

#[test]
fn clone_continues_the_same_stream() {
    let mut a = Prng::seed_from_u64(11);
    a.next_u64();
    let mut b = a.clone();
    assert_eq!(a.next_u64(), b.next_u64());
}

#[test]
fn below_three_is_evenly_spread() {
    let mut p = Prng::seed_from_u64(2024);
    let mut counts = [0usize; 3];
    for _ in 0..30_000 {
        counts[p.below(3)] += 1;
    }
    for c in counts {
        assert!((9_500..=10_500).contains(&c), "counts {counts:?}");
    }
}

#[test]
fn below_with_a_huge_bound_redraws_until_accepted() {
    // About half of all draws fall in the rejected zone for this bound.
    let n: usize = (1 << 63) + 1;
    let mut p = Prng::seed_from_u64(77);
    let draws: Vec<usize> = (0..8).map(|_| p.below(n)).collect();
    assert_eq!(
        draws,
        vec![
            3800633299529545481,
            352855962421716946,
            3049987066147681506,
            8323451114570628114,
            1271093936983488426,
            6025952241686128185,
            8227738193035203947,
            4346767224284775903,
        ]
    );
    assert!(draws.iter().all(|&d| d < n));
}
