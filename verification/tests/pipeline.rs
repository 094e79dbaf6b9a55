use widths::{Config, Pavement, Polygon, Polyline, Pt};

fn line(pts: &[(i64, i64)]) -> Polyline {
    Polyline { pts: pts.iter().map(|&(x, y)| Pt { x, y }).collect() }
}

// A 100 m x 10 m rectangle, long axis horizontal, in millimeters.
fn rectangle() -> Polygon {
    Polygon {
        exterior: line(&[(0, 0), (100_000, 0), (100_000, 10_000), (0, 10_000), (0, 0)]),
        holes: Vec::new(),
    }
}

// What a straight-skeleton primitive yields for the rectangle: the
// horizontal centerline plus one diagonal per corner.
fn rectangle_skeleton() -> Vec<Polyline> {
    vec![
        line(&[(5_000, 5_000), (95_000, 5_000)]),
        line(&[(0, 0), (5_000, 5_000)]),
        line(&[(100_000, 0), (95_000, 5_000)]),
        line(&[(100_000, 10_000), (95_000, 5_000)]),
        line(&[(0, 10_000), (5_000, 5_000)]),
    ]
}

#[test]
fn rectangle_yields_one_centerline_and_constant_widths() {
    let cfg = Config::default();
    let mut pavement = Pavement::new(rectangle(), &cfg);
    pavement.calculate(&cfg, vec![rectangle_skeleton()]);

    // One skeleton fragment of length 90-100 m survives the filters.
    assert_eq!(pavement.skeletons.len(), 1);
    let skel = &pavement.skeletons[0];
    let len = (skel.pts.last().unwrap().x - skel.pts.first().unwrap().x).abs();
    assert!(90_000 <= len && len <= 100_000, "length {}", len);

    // Every perpendicular probe measures the 10 m width.
    assert_eq!(pavement.perp_lines.len(), 18);
    for seg in &pavement.perp_lines {
        assert_eq!((seg.a.y - seg.b.y).abs(), 10_000);
    }

    // Thickened strips between consecutive samples, all 10 m wide.
    assert_eq!(pavement.thickened_lines.len(), 17);
    for (_, w1, w2) in &pavement.thickened_lines {
        assert_eq!(*w1, 10_000);
        assert_eq!(*w2, 10_000);
    }

    // The constant width makes a single centerline run with min = max.
    assert_eq!(pavement.center_with_width.len(), 1);
    let (_, lo, hi) = &pavement.center_with_width[0];
    assert_eq!((*lo, *hi), (10_000, 10_000));
}

#[test]
fn second_orientation_is_tried_when_the_first_yields_nothing() {
    let cfg = Config::default();
    let mut pavement = Pavement::new(rectangle(), &cfg);
    pavement.calculate(&cfg, vec![Vec::new(), rectangle_skeleton()]);
    assert_eq!(pavement.skeletons.len(), 1);
}

#[test]
fn no_candidates_yield_empty_outputs() {
    let cfg = Config::default();
    let mut pavement = Pavement::new(rectangle(), &cfg);
    pavement.calculate(&cfg, vec![Vec::new(), Vec::new()]);
    assert!(pavement.skeletons.is_empty());
    assert!(pavement.perp_lines.is_empty());
    assert!(pavement.thickened_lines.is_empty());
    assert!(pavement.center_with_width.is_empty());
}

#[test]
fn small_hole_is_removed_before_skeleton_extraction() {
    // A 7 m x 7 m hole is 49 m^2, below the default 100 m^2 threshold.
    let pg = Polygon {
        exterior: line(&[(0, 0), (100_000, 0), (100_000, 10_000), (0, 10_000), (0, 0)]),
        holes: vec![line(&[
            (46_000, 1_000),
            (53_000, 1_000),
            (53_000, 8_000),
            (46_000, 8_000),
            (46_000, 1_000),
        ])],
    };
    let cfg = Config::default();
    let pavement = Pavement::new(pg, &cfg);
    assert!(pavement.polygon.holes.is_empty());
}

#[test]
fn large_hole_is_kept() {
    // A 20 m x 8 m hole is 160 m^2, above the default threshold.
    let pg = Polygon {
        exterior: line(&[(0, 0), (100_000, 0), (100_000, 10_000), (0, 10_000), (0, 0)]),
        holes: vec![line(&[
            (40_000, 1_000),
            (60_000, 1_000),
            (60_000, 9_000),
            (40_000, 9_000),
            (40_000, 1_000),
        ])],
    };
    let cfg = Config::default();
    let pavement = Pavement::new(pg, &cfg);
    assert_eq!(pavement.polygon.holes.len(), 1);
}

#[test]
fn boundary_hugging_fragments_are_filtered_out() {
    // The corner diagonals touch the boundary at their outer ends, so the
    // boundary-distance filter discards them and only the centerline
    // remains, joined or not.
    let cfg = Config::default();
    let mut pavement = Pavement::new(rectangle(), &cfg);
    pavement.calculate(&cfg, vec![rectangle_skeleton()]);
    assert_eq!(pavement.skeletons.len(), 1);
    assert_eq!(pavement.skeletons[0].pts.first().unwrap(), &Pt { x: 5_000, y: 5_000 });
    assert_eq!(pavement.skeletons[0].pts.last().unwrap(), &Pt { x: 95_000, y: 5_000 });
}

#[test]
fn skipping_width_sampling_leaves_probe_outputs_empty() {
    let mut cfg = Config::default();
    cfg.make_perps_step_size = None;
    let mut pavement = Pavement::new(rectangle(), &cfg);
    pavement.calculate(&cfg, vec![rectangle_skeleton()]);
    assert_eq!(pavement.skeletons.len(), 1);
    assert!(pavement.perp_lines.is_empty());
    assert!(pavement.thickened_lines.is_empty());
    assert!(pavement.center_with_width.is_empty());
}

#[test]
fn short_fragments_are_pruned_against_the_longest() {
    // A 1 m stub in the interior survives the filters but falls below a
    // tenth of the 90 m centerline, so pruning drops it.
    let cfg = Config::default();
    let mut candidates = rectangle_skeleton();
    candidates.push(line(&[(40_000, 4_000), (41_000, 4_000)]));
    let mut pavement = Pavement::new(rectangle(), &cfg);
    pavement.calculate(&cfg, vec![candidates]);
    assert_eq!(pavement.skeletons.len(), 1);
    assert_eq!(pavement.skeletons[0].pts.last().unwrap(), &Pt { x: 95_000, y: 5_000 });
}

#[test]
fn pruning_disabled_keeps_the_stub() {
    let mut cfg = Config::default();
    cfg.remove_short_skeletons = None;
    let mut candidates = rectangle_skeleton();
    candidates.push(line(&[(40_000, 4_000), (41_000, 4_000)]));
    let mut pavement = Pavement::new(rectangle(), &cfg);
    pavement.calculate(&cfg, vec![candidates]);
    assert_eq!(pavement.skeletons.len(), 2);
}

#[test]
fn hole_exactly_at_the_threshold_is_kept() {
    // A 20 m x 5 m hole is exactly 100 m^2: only areas strictly below the
    // threshold are dropped.
    let pg = Polygon {
        exterior: line(&[(0, 0), (100_000, 0), (100_000, 10_000), (0, 10_000), (0, 0)]),
        holes: vec![line(&[
            (40_000, 2_500),
            (60_000, 2_500),
            (60_000, 7_500),
            (40_000, 7_500),
            (40_000, 2_500),
        ])],
    };
    let cfg = Config::default();
    let pavement = Pavement::new(pg, &cfg);
    assert_eq!(pavement.polygon.holes.len(), 1);
}
