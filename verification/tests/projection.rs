use widths::{Mercator, Polygon, Polyline, Pt};

// A rectangle roughly one kilometer on each side near Greenwich, with the
// plane extent in millimeters (finer than a microdegree of either axis).
fn small_area() -> Mercator {
    Mercator::from(-1_000_000, 51_000_000, -990_000, 51_010_000, 700_000, 1_112_000)
        .unwrap()
}

#[test]
fn round_trip_within_one_microdegree() {
    let m = small_area();
    let pts = vec![
        Pt { x: -1_000_000, y: 51_000_000 },
        Pt { x: -990_000, y: 51_010_000 },
        Pt { x: -995_123, y: 51_004_567 },
        Pt { x: -999_999, y: 51_000_001 },
    ];
    for p in pts {
        let plane = m.pt_to_mercator(p);
        let back = m.pt_to_wgs84(plane);
        assert!((back.x - p.x).abs() <= 1, "lon {} vs {}", back.x, p.x);
        assert!((back.y - p.y).abs() <= 1, "lat {} vs {}", back.y, p.y);
    }
}

#[test]
fn north_maps_to_top_of_plane() {
    let m = small_area();
    let north_west = Pt { x: -1_000_000, y: 51_010_000 };
    let plane = m.pt_to_mercator(north_west);
    assert_eq!(plane.x, 0);
    assert_eq!(plane.y, 0);
    let south_west = Pt { x: -1_000_000, y: 51_000_000 };
    let plane = m.pt_to_mercator(south_west);
    assert_eq!(plane.x, 0);
    assert_eq!(plane.y, 1_112_000);
}

#[test]
fn degenerate_bounds_are_rejected() {
    assert!(Mercator::from(-1_000_000, 51_000_000, -1_000_000, 51_010_000, 1000, 1000).is_none());
    assert!(Mercator::from(-1_000_000, 51_000_000, -990_000, 51_000_000, 1000, 1000).is_none());
    assert!(Mercator::from(-1_000_000, 51_000_000, -990_000, 51_010_000, 0, 1000).is_none());
    assert!(Mercator::from(-1_000_000, 51_000_000, -990_000, 51_010_000, 1000, 0).is_none());
}

#[test]
fn forward_projection_interpolates_linearly() {
    // A 10 x 10 microdegree square mapped onto a 1000 x 1000 mm plane.
    let m = Mercator::from(0, 0, 10, 10, 1000, 1000).unwrap();
    let mid = m.pt_to_mercator(Pt { x: 5, y: 5 });
    assert_eq!(mid, Pt { x: 500, y: 500 });
    let q = m.pt_to_mercator(Pt { x: 2, y: 8 });
    assert_eq!(q, Pt { x: 200, y: 200 });
}

#[test]
fn polygon_round_trip_through_the_plane() {
    let m = small_area();
    let ring = |pts: &[(i64, i64)]| Polyline {
        pts: pts.iter().map(|&(x, y)| Pt { x, y }).collect(),
    };
    let pg = Polygon {
        exterior: ring(&[
            (-999_000, 51_001_000),
            (-991_000, 51_001_000),
            (-991_000, 51_009_000),
            (-999_000, 51_009_000),
            (-999_000, 51_001_000),
        ]),
        holes: vec![ring(&[
            (-996_000, 51_004_000),
            (-994_000, 51_004_000),
            (-994_000, 51_006_000),
            (-996_000, 51_006_000),
            (-996_000, 51_004_000),
        ])],
    };
    let plane = m.to_mercator(&pg);
    let mut back = plane;
    m.to_wgs84_in_place(&mut back);
    assert_eq!(back.exterior.pts.len(), pg.exterior.pts.len());
    assert_eq!(back.holes.len(), 1);
    for (orig, round) in pg.exterior.pts.iter().zip(back.exterior.pts.iter()) {
        assert!((orig.x - round.x).abs() <= 1);
        assert!((orig.y - round.y).abs() <= 1);
    }
    for (orig, round) in pg.holes[0].pts.iter().zip(back.holes[0].pts.iter()) {
        assert!((orig.x - round.x).abs() <= 1);
        assert!((orig.y - round.y).abs() <= 1);
    }
}

#[test]
fn points_slightly_outside_the_plane_still_reproject() {
    // Derived geometry (thickened-strip corners) may overhang the batch
    // rectangle; reprojection extends past the edge by the same formula.
    let m = small_area();
    let g = m.pt_to_wgs84(Pt { x: -500, y: -500 });
    // Half a meter west of the rectangle is a few microdegrees west of it.
    assert!(m.min_lon - 10 <= g.x && g.x <= m.min_lon);
    // Half a meter above the top edge is a few microdegrees north of it.
    let max_lat = m.min_lat + m.lat_span;
    assert!(max_lat <= g.y && g.y <= max_lat + 10);
}
