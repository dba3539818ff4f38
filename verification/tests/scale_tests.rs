use terrain_gen::scale::{Scale, UNIT};

#[test]
fn test_scale_midpoint() {
    // 0.5 on [0, 1] mapped onto [0.12, 0.1986] is exactly 0.15930
    let scale = Scale::new((0, UNIT), (120_000, 198_600));
    assert_eq!(scale.scale(UNIT / 2), 159_300);
}

#[test]
fn test_scale_endpoints() {
    let scale = Scale::new((0, UNIT), (3 * UNIT, 5 * UNIT));
    assert_eq!(scale.scale(0), 3 * UNIT);
    assert_eq!(scale.scale(UNIT), 5 * UNIT);
}

#[test]
fn test_scale_extrapolates_both_ways() {
    let scale = Scale::new((3, 7), (0, UNIT));
    assert_eq!(scale.scale(5), UNIT / 2);
    assert_eq!(scale.scale(9), UNIT + UNIT / 2);
    assert_eq!(scale.scale(1), -(UNIT / 2));
}

#[test]
fn test_scale_round_trip() {
    // forward from [0, 10] onto [0, 100] loses nothing, so mapping back
    // returns every multiple unchanged
    let forward = Scale::new((0, 10), (0, 100));
    let backward = Scale::new((0, 100), (0, 10));
    for v in 0..11i64 {
        assert_eq!(backward.scale(forward.scale(v)), v);
    }
}
