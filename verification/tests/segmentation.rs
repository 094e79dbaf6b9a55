use widths::{split, slice, Polyline, Pt};

fn line(pts: &[(i64, i64)]) -> Polyline {
    Polyline { pts: pts.iter().map(|&(x, y)| Pt { x, y }).collect() }
}

#[test]
fn constant_width_makes_a_single_run() {
    let l = line(&[(0, 0), (20_000, 0)]);
    let samples = vec![(0u64, 10_000u64), (5_000, 10_000), (10_000, 10_000), (15_000, 10_000)];
    let runs = split(&l, &samples, 500);
    assert_eq!(runs.len(), 1);
    let (piece, lo, hi) = &runs[0];
    assert_eq!((*lo, *hi), (10_000, 10_000));
    assert_eq!(piece.pts.first().unwrap(), &Pt { x: 0, y: 0 });
    assert_eq!(piece.pts.last().unwrap(), &Pt { x: 15_000, y: 0 });
}

#[test]
fn width_jump_closes_the_run_at_the_jump() {
    // The sample that breaks the tolerance closes the first run, so that
    // run's maximum may exceed the granularity relative to its start.
    let l = line(&[(0, 0), (20_000, 0)]);
    let samples = vec![(0u64, 1_000u64), (5_000, 1_000), (10_000, 2_000), (15_000, 2_000)];
    let runs = split(&l, &samples, 500);
    assert_eq!(runs.len(), 2);
    assert_eq!((runs[0].1, runs[0].2), (1_000, 2_000));
    assert_eq!((runs[1].1, runs[1].2), (2_000, 2_000));
    assert_eq!(runs[0].0.pts.first().unwrap(), &Pt { x: 0, y: 0 });
    assert_eq!(runs[0].0.pts.last().unwrap(), &Pt { x: 10_000, y: 0 });
    assert_eq!(runs[1].0.pts.first().unwrap(), &Pt { x: 10_000, y: 0 });
    assert_eq!(runs[1].0.pts.last().unwrap(), &Pt { x: 15_000, y: 0 });
}

#[test]
fn run_bounds_cover_every_sample_width() {
    let l = line(&[(0, 0), (40_000, 0)]);
    let samples = vec![
        (0u64, 5_000u64),
        (5_000, 5_200),
        (10_000, 4_900),
        (15_000, 5_100),
        (20_000, 5_000),
    ];
    let runs = split(&l, &samples, 500);
    assert_eq!(runs.len(), 1);
    assert_eq!((runs[0].1, runs[0].2), (4_900, 5_200));
    for &(_, w) in &samples {
        assert!(runs[0].1 <= w && w <= runs[0].2);
    }
}

#[test]
fn slicing_between_offsets_keeps_interior_vertices() {
    let l = line(&[(0, 0), (10_000, 0), (10_000, 10_000)]);
    let piece = slice(&l, 5_000, 15_000).unwrap();
    assert_eq!(
        piece.pts,
        vec![Pt { x: 5_000, y: 0 }, Pt { x: 10_000, y: 0 }, Pt { x: 10_000, y: 5_000 }]
    );
}

#[test]
fn a_degenerate_slice_is_dropped() {
    let l = line(&[(0, 0), (10_000, 0)]);
    assert!(slice(&l, 5_000, 5_000).is_none());
}
