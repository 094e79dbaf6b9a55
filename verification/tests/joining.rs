use widths::{join_linestrings, Polyline, Pt};

fn line(pts: &[(i64, i64)]) -> Polyline {
    Polyline { pts: pts.iter().map(|&(x, y)| Pt { x, y }).collect() }
}

#[test]
fn two_fragments_sharing_an_endpoint_merge_into_one() {
    let a = line(&[(0, 0), (10_000, 0)]);
    let b = line(&[(10_000, 0), (20_000, 0)]);
    let joined = join_linestrings(vec![a, b]);
    assert_eq!(joined.len(), 1);
    // The shared joint point is written once: 2 + 2 - 1 points.
    assert_eq!(joined[0].pts.len(), 3);
    let xs: Vec<i64> = joined[0].pts.iter().map(|p| p.x).collect();
    assert!(xs == vec![0, 10_000, 20_000] || xs == vec![20_000, 10_000, 0]);
}

#[test]
fn joining_twice_is_a_no_op() {
    let a = line(&[(0, 0), (10_000, 0)]);
    let b = line(&[(10_000, 0), (20_000, 0)]);
    let c = line(&[(40_000, 0), (50_000, 0)]);
    let once = join_linestrings(vec![a, b, c]);
    let again: Vec<Vec<Pt>> = once.iter().map(|l| l.pts.clone()).collect();
    let twice = join_linestrings(once);
    let twice_pts: Vec<Vec<Pt>> = twice.iter().map(|l| l.pts.clone()).collect();
    assert_eq!(again, twice_pts);
}

#[test]
fn disjoint_fragments_come_back_unchanged() {
    let a = line(&[(0, 0), (10_000, 0)]);
    let b = line(&[(30_000, 0), (40_000, 0)]);
    let joined = join_linestrings(vec![a, b]);
    assert_eq!(joined.len(), 2);
    assert_eq!(joined[0].pts[0], Pt { x: 0, y: 0 });
    assert_eq!(joined[1].pts[0], Pt { x: 30_000, y: 0 });
}

#[test]
fn a_chain_of_three_merges_fully() {
    let a = line(&[(0, 0), (10_000, 0)]);
    let b = line(&[(10_000, 0), (10_000, 10_000)]);
    let c = line(&[(10_000, 10_000), (20_000, 10_000)]);
    let joined = join_linestrings(vec![a, b, c]);
    assert_eq!(joined.len(), 1);
    assert_eq!(joined[0].pts.len(), 4);
}

#[test]
fn side_branch_stays_separate_after_main_trail_merges() {
    // A straight main run and a short spur at its middle vertex: the
    // heaviest trail is the main run, and after it merges the spur no
    // longer touches any fragment endpoint.
    let a = line(&[(0, 0), (100_000, 0)]);
    let b = line(&[(100_000, 0), (200_000, 0)]);
    let spur = line(&[(100_000, 0), (100_000, 5_000)]);
    let joined = join_linestrings(vec![a, b, spur]);
    assert_eq!(joined.len(), 2);
    let long = joined.iter().find(|l| l.pts.len() == 3).expect("merged main run");
    let xs: Vec<i64> = long.pts.iter().map(|p| p.x).collect();
    assert!(xs == vec![0, 100_000, 200_000] || xs == vec![200_000, 100_000, 0]);
}

#[test]
fn endpoints_must_match_exactly_on_the_grid() {
    // The grid is the quantization: endpoints one millimeter apart are
    // different vertices and do not join.
    let a = line(&[(0, 0), (10_000, 0)]);
    let b = line(&[(10_001, 0), (20_000, 0)]);
    let joined = join_linestrings(vec![a, b]);
    assert_eq!(joined.len(), 2);
}
