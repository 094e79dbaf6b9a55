use widths::{clip_line_to_polygon, Polygon, Polyline, Pt, Segment};

fn ring(pts: &[(i64, i64)]) -> Polyline {
    Polyline { pts: pts.iter().map(|&(x, y)| Pt { x, y }).collect() }
}

// A 10 m square.
fn square() -> Polygon {
    Polygon {
        exterior: ring(&[(0, 0), (10_000, 0), (10_000, 10_000), (0, 10_000), (0, 0)]),
        holes: Vec::new(),
    }
}

#[test]
fn probe_through_the_square_clips_to_its_width() {
    let pg = square();
    let mid = Pt { x: 5_000, y: 5_000 };
    let probe = Segment { a: Pt { x: 5_000, y: -20_000 }, b: Pt { x: 5_000, y: 30_000 } };
    let clipped = clip_line_to_polygon(&pg, mid, probe, Some(500_000)).unwrap();
    let ys = if clipped.a.y < clipped.b.y {
        (clipped.a.y, clipped.b.y)
    } else {
        (clipped.b.y, clipped.a.y)
    };
    assert_eq!(ys, (0, 10_000));
    assert_eq!(clipped.a.x, 5_000);
    assert_eq!(clipped.b.x, 5_000);
}

#[test]
fn single_boundary_hit_yields_no_clip() {
    // A probe that starts inside and leaves through one side crosses the
    // boundary at a single point, which is not enough for a width.
    let pg = square();
    let mid = Pt { x: 5_000, y: 5_000 };
    let probe = Segment { a: Pt { x: 5_000, y: 5_000 }, b: Pt { x: 30_000, y: 5_000 } };
    assert!(clip_line_to_polygon(&pg, mid, probe, None).is_none());
}

#[test]
fn implausible_midpoint_is_rejected() {
    // The reference midpoint sits 1 m from one side and 9 m from the
    // other: the near/far ratio 1/9 falls below the threshold of 1/2.
    let pg = square();
    let mid = Pt { x: 5_000, y: 1_000 };
    let probe = Segment { a: Pt { x: 5_000, y: -20_000 }, b: Pt { x: 5_000, y: 30_000 } };
    assert!(clip_line_to_polygon(&pg, mid, probe, Some(500_000)).is_none());
    // Without the filter the same probe clips fine.
    assert!(clip_line_to_polygon(&pg, mid, probe, None).is_some());
}

#[test]
fn hole_boundaries_count_as_hits() {
    // A 2 m square hole in the middle: the vertical probe now has four
    // hits, and the two nearest the midpoint are the hole's walls.
    let pg = Polygon {
        exterior: ring(&[(0, 0), (10_000, 0), (10_000, 10_000), (0, 10_000), (0, 0)]),
        holes: vec![ring(&[
            (4_000, 4_000),
            (6_000, 4_000),
            (6_000, 6_000),
            (4_000, 6_000),
            (4_000, 4_000),
        ])],
    };
    let mid = Pt { x: 5_000, y: 5_000 };
    let probe = Segment { a: Pt { x: 5_000, y: -20_000 }, b: Pt { x: 5_000, y: 30_000 } };
    let clipped = clip_line_to_polygon(&pg, mid, probe, None).unwrap();
    let ys = if clipped.a.y < clipped.b.y {
        (clipped.a.y, clipped.b.y)
    } else {
        (clipped.b.y, clipped.a.y)
    };
    assert_eq!(ys, (4_000, 6_000));
}

#[test]
fn probe_missing_the_polygon_yields_nothing() {
    let pg = square();
    let mid = Pt { x: 50_000, y: 5_000 };
    let probe = Segment { a: Pt { x: 50_000, y: -20_000 }, b: Pt { x: 50_000, y: 30_000 } };
    assert!(clip_line_to_polygon(&pg, mid, probe, None).is_none());
}
