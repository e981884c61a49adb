use taguchi::rng::Rng;

#[test]
fn reference_splitmix64() {
    let mut rng = Rng::new(42);
    assert_eq!(rng.next_u64(), 0xbdd732262feb6e95);
    assert_eq!(rng.next_u64(), 0x28efe333b266f103);
    assert_eq!(rng.next_u64(), 0x47526757130f9f52);
}

#[test]
fn shuffle_and_ranges() {
    let mut a: Vec<_> = (0..30).collect();
    let mut b = a.clone();
    Rng::new(42).shuffle(&mut a);
    Rng::new(42).shuffle(&mut b);
    assert_eq!(a, b);
    assert_ne!(a, (0..30).collect::<Vec<_>>());
    a.sort_unstable();
    assert_eq!(a, (0..30).collect::<Vec<_>>());
    let mut rng = Rng::new(0);
    for n in [1, 2, 3, u64::MAX / 2 + 2, u64::MAX] {
        for _ in 0..100 {
            assert!(rng.below(n) < n);
        }
    }
    rng.shuffle::<u8>(&mut []);
    rng.shuffle(&mut [1]);
}

#[test]
fn draws_reduce_the_next_accepted_output() {
    // No output is passed over where the range divides the outputs evenly.
    let (mut a, mut b) = (Rng::new(9), Rng::new(9));
    for _ in 0..20 {
        assert_eq!(a.below(8), b.next_u64() % 8);
    }
    // Half of the outputs are passed over for this range.
    let n = u64::MAX / 2 + 2;
    let threshold = n.wrapping_neg() % n;
    let (mut a, mut b) = (Rng::new(9), Rng::new(9));
    for _ in 0..20 {
        let mut z = b.next_u64();
        while z < threshold {
            z = b.next_u64();
        }
        assert_eq!(a.below(n), z % n);
    }
}

#[test]
fn a_shuffle_draws_from_the_end() {
    let mut v = vec!['a', 'b', 'c', 'd'];
    let mut rng = Rng::new(7);
    let mut expected = v.clone();
    for i in (1..4).rev() {
        let j = rng.below(i as u64 + 1) as usize;
        expected.swap(i, j);
    }
    Rng::new(7).shuffle(&mut v);
    assert_eq!(v, expected);
}
