use roguelike_core::rng::SeededRng;

#[test]
fn next_follows_the_recurrence() {
    let mut rng = SeededRng::new(0);
    assert_eq!(rng.next(), 1013904223);
    assert_eq!(rng.next(), 1196435762);
    let mut rng = SeededRng::new(0x12345678);
    assert_eq!(rng.next(), 1967335287);
    assert_eq!(rng.next(), 3442499178);
    assert_eq!(rng.next(), 635173569);
    assert_eq!(rng.next(), 1264358700);
    assert_eq!(rng.next(), 2229145243);
}

#[test]
fn next_returns_the_new_state() {
    let mut rng = SeededRng::new(99);
    let value = rng.next();
    assert_eq!(value, rng.state);
    assert_ne!(value, 99);
}

#[test]
fn next_wraps_around_32_bits() {
    let mut rng = SeededRng::new(u32::MAX);
    let expected = ((u32::MAX as u64 * 1664525 + 1013904223) % (1u64 << 32)) as u32;
    assert_eq!(rng.next(), expected);
}

#[test]
fn same_seed_same_sequence() {
    let mut a = SeededRng::new(777);
    let mut b = SeededRng::new(777);
    for _ in 0..100 {
        assert_eq!(a.next(), b.next());
        assert_eq!(a.next_range(-5, 17), b.next_range(-5, 17));
        assert_eq!(a.next_bool(), b.next_bool());
    }
}

#[test]
fn next_range_is_min_plus_remainder() {
    let mut rng = SeededRng::new(42);
    assert_eq!(rng.next_range(10, 20), 13);
    assert_eq!(rng.state, 1083814273);
}

#[test]
fn next_range_stays_in_range() {
    let mut rng = SeededRng::new(5);
    for _ in 0..1000 {
        let v = rng.next_range(-3, 4);
        assert!(-3 <= v && v < 4);
    }
}

#[test]
fn next_range_of_empty_interval_returns_min() {
    let mut rng = SeededRng::new(42);
    assert_eq!(rng.next_range(7, 7), 7);
    assert_eq!(rng.next_range(9, 2), 9);
    assert_eq!(rng.state, 42);
}

#[test]
fn next_range_spans_the_whole_of_i32() {
    let mut rng = SeededRng::new(1);
    let v = rng.next_range(i32::MIN, i32::MAX);
    let raw = 1015568748i64;
    assert_eq!(v as i64, i32::MIN as i64 + raw % (i32::MAX as i64 - i32::MIN as i64));
}

#[test]
fn next_bool_is_true_for_even_states() {
    let mut rng = SeededRng::new(42);
    assert_eq!(rng.next_bool(), false);
    assert_eq!(rng.state, 1083814273);
    let mut rng = SeededRng::new(0);
    // 1013904223 is odd, 1196435762 is even.
    assert_eq!(rng.next_bool(), false);
    assert_eq!(rng.next_bool(), true);
}
