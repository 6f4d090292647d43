use zikzakzoo::SimpleRNG;

#[test]
fn new_keeps_seed() {
    assert_eq!(SimpleRNG::new(77).state, 77);
}

#[test]
fn next_follows_recurrence() {
    let mut rng = SimpleRNG::new(0);
    assert_eq!(rng.next(), 1442695040888963407);
    assert_eq!(rng.state, 1442695040888963407);
    assert_eq!(rng.next(), 1876011003808476466);
    assert_eq!(rng.next(), 11166244414315200793);
    assert_eq!(rng.next(), 7401132627792533940);
}

#[test]
fn next_from_other_seeds() {
    let mut rng = SimpleRNG::new(42);
    assert_eq!(rng.next(), 10481999410520546993);
    assert_eq!(rng.next(), 4159066171780167020);
    assert_eq!(rng.next(), 7615522811268512075);
    let mut rng = SimpleRNG::new(u64::MAX);
    assert_eq!(rng.next(), 13525302890751722018);
}

#[test]
fn same_seed_same_draws() {
    for seed in [0u64, 1, 99, u64::MAX] {
        let mut a = SimpleRNG::new(seed);
        let mut b = SimpleRNG::new(seed);
        let first: Vec<u64> = (0..50).map(|_| a.next()).collect();
        let second: Vec<u64> = (0..50).map(|_| b.next()).collect();
        assert_eq!(first, second);
    }
}

#[test]
fn rand_range_is_draw_mod_span_plus_min() {
    let mut rng = SimpleRNG::new(12345);
    assert_eq!(rng.rand_range(3, 9), 3);
    assert_eq!(rng.state, 2021368500568277588);
    let mut rng = SimpleRNG::new(7);
    assert_eq!(rng.rand_range(0, 8), 8);
    assert_eq!(rng.state, 9098160460397411210);
}

#[test]
fn rand_range_single_value() {
    let mut rng = SimpleRNG::new(5);
    assert_eq!(rng.rand_range(4, 4), 4);
    assert_eq!(rng.state, SimpleRNG::new(5).next());
}

#[test]
fn rand_range_stays_in_bounds() {
    let mut rng = SimpleRNG::new(2024);
    for _ in 0..200 {
        let v = rng.rand_range(2, 6);
        assert!(2 <= v && v <= 6);
    }
}

#[test]
fn rand_range_whole_domain() {
    let mut rng = SimpleRNG::new(7);
    assert_eq!(rng.rand_range(0, usize::MAX) as u64, 9098160460397411210u64 as usize as u64);
}

#[test]
fn checked_rand_range_rejects_empty_range() {
    let mut rng = SimpleRNG::new(7);
    assert_eq!(rng.checked_rand_range(5, 4), None);
    assert_eq!(rng.state, 7);
    assert_eq!(rng.checked_rand_range(0, 8), Some(8));
    assert_eq!(rng.state, 9098160460397411210);
}
