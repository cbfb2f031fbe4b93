use pathtracer::rng::Rng;

#[test]
fn rng_test_uniform() {
    let mut rng = Rng::new(0);
    let mut numbers = Vec::new();
    for _ in 0..100 {
        numbers.push(rng.next_raw());
    }
    let mut rng = Rng::new(0);
    for number in numbers {
        assert_eq!(number, rng.next_raw());
    }
}

#[test]
fn test_same_seed_same_stream() {
    let mut a = Rng::new(123456789);
    let mut b = Rng::new(123456789);
    assert_eq!(a.draw_many(50), b.draw_many(50));
}

#[test]
fn test_different_seed_different_stream() {
    let mut a = Rng::new(1);
    let mut b = Rng::new(2);
    assert_ne!(a.draw_many(50), b.draw_many(50));
}

#[test]
fn test_state_always_changes() {
    let seeds = [0u32, 1, 42, 0xdead_beef, u32::MAX, u32::MAX - 42];
    for &s in seeds.iter() {
        let mut rng = Rng::new(s);
        let v = rng.next_raw();
        assert_ne!(v, s);
        assert_eq!(rng.seed, v);
    }
}

#[test]
fn test_uniform_range() {
    // The renderer derives a float in [0, 1) from the top 24 bits of each
    // draw; every such value must lie below one.
    let mut rng = Rng::new(7);
    for _ in 0..10000 {
        let v = rng.uniform_bits();
        assert!(v < 16777216);
        let u = v as f32 / 16777216.0;
        assert!((0.0..1.0).contains(&u));
    }
}

#[test]
fn test_draw_many_matches_single_draws() {
    let mut a = Rng::new(99);
    let batch = a.draw_many(10);
    let mut b = Rng::new(99);
    for i in 0..10 {
        assert_eq!(batch[i], b.next_raw());
    }
    assert_eq!(a.seed, b.seed);
}
