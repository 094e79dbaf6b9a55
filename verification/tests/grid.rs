use widths::{isqrt_u64, Pt, Polyline};
use widths::geom::{seg_len, polyline_len};

#[test]
fn integer_square_roots_round_down() {
    assert_eq!(isqrt_u64(0), 0);
    assert_eq!(isqrt_u64(1), 1);
    assert_eq!(isqrt_u64(2), 1);
    assert_eq!(isqrt_u64(3), 1);
    assert_eq!(isqrt_u64(4), 2);
    assert_eq!(isqrt_u64(99), 9);
    assert_eq!(isqrt_u64(100), 10);
    assert_eq!(isqrt_u64(u64::MAX), 0xFFFF_FFFF);
}

#[test]
fn segment_lengths_follow_the_euclidean_metric() {
    assert_eq!(seg_len(Pt { x: 0, y: 0 }, Pt { x: 3_000, y: 4_000 }), 5_000);
    assert_eq!(seg_len(Pt { x: -3_000, y: 0 }, Pt { x: 0, y: -4_000 }), 5_000);
    // Non-representable lengths round down: sqrt(2) * 1000 = 1414.2...
    assert_eq!(seg_len(Pt { x: 0, y: 0 }, Pt { x: 1_000, y: 1_000 }), 1_414);
}

#[test]
fn polyline_length_sums_its_segments() {
    let l = Polyline {
        pts: vec![Pt { x: 0, y: 0 }, Pt { x: 3_000, y: 4_000 }, Pt { x: 3_000, y: 14_000 }],
    };
    assert_eq!(polyline_len(&l), 15_000);
}
