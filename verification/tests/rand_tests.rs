use terrain_gen::rand::{Rng, SeededRng, StepRng};
use terrain_gen::scale::UNIT;

#[test]
fn test_step_rng_answers_midpoints() {
    let mut rng = StepRng::new(0, 1);
    assert_eq!(rng.next(), UNIT / 2);
    assert_eq!(rng.gen_range(0, 10), 5);
    assert_eq!(rng.gen_range(100, 100), 100);
    // the midpoint of [0.12, 0.1986] is exactly 0.15930
    assert_eq!(rng.gen_range(120_000, 198_600), 159_300);
}

#[test]
fn test_step_rng_steps_indices() {
    let mut rng = StepRng::new(1, 1);
    assert_eq!(rng.gen_index(4), 1);
    assert_eq!(rng.gen_index(4), 2);
    assert_eq!(rng.gen_index(4), 3);
    assert_eq!(rng.gen_index(4), 0);
}

#[test]
fn test_seeded_rng_is_reproducible_and_in_range() {
    let mut a = SeededRng::new(11);
    let mut b = SeededRng::new(11);
    for _ in 0..100 {
        let va = a.next();
        let vb = b.next();
        assert_eq!(va, vb);
        assert!(0 <= va && va <= UNIT);
    }
    for n in 1..20usize {
        let ia = a.gen_index(n);
        let ib = b.gen_index(n);
        assert_eq!(ia, ib);
        assert!(ia < n);
    }
    for _ in 0..50 {
        let r = a.gen_range(-5, 17);
        assert!(-5 <= r && r <= 17);
    }
}
