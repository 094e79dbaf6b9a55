use widths::{step_along_line, Polyline, Pt};

fn line(pts: &[(i64, i64)]) -> Polyline {
    Polyline { pts: pts.iter().map(|&(x, y)| Pt { x, y }).collect() }
}

#[test]
fn straight_line_sampled_at_regular_offsets() {
    // 90 m long, stepped every 5 m: samples at 0, 5, ..., 85 m.
    let l = line(&[(5_000, 5_000), (95_000, 5_000)]);
    let samples = step_along_line(&l, 5_000);
    assert_eq!(samples.len(), 18);
    for (k, s) in samples.iter().enumerate() {
        assert_eq!(s.pt, Pt { x: 5_000 + 5_000 * k as i64, y: 5_000 });
        assert_eq!((s.dx, s.dy), (90_000, 0));
    }
}

#[test]
fn bend_changes_the_sampled_direction() {
    // Two 10 m legs at a right angle, stepped every 4 m: offsets 0, 4, 8 m
    // lie on the first leg; 12, 16 m on the second.
    let l = line(&[(0, 0), (10_000, 0), (10_000, 10_000)]);
    let samples = step_along_line(&l, 4_000);
    assert_eq!(samples.len(), 5);
    assert_eq!(samples[0].pt, Pt { x: 0, y: 0 });
    assert_eq!(samples[2].pt, Pt { x: 8_000, y: 0 });
    assert_eq!((samples[2].dx, samples[2].dy), (10_000, 0));
    assert_eq!(samples[3].pt, Pt { x: 10_000, y: 2_000 });
    assert_eq!((samples[3].dx, samples[3].dy), (0, 10_000));
}

#[test]
fn zero_length_segments_are_skipped() {
    let l = line(&[(0, 0), (0, 0), (10_000, 0)]);
    let samples = step_along_line(&l, 6_000);
    assert_eq!(samples.len(), 2);
    assert_eq!(samples[0].pt, Pt { x: 0, y: 0 });
    assert_eq!(samples[1].pt, Pt { x: 6_000, y: 0 });
}

#[test]
fn an_interval_past_the_length_yields_the_start_only() {
    let l = line(&[(0, 0), (10_000, 0)]);
    let samples = step_along_line(&l, 50_000);
    assert_eq!(samples.len(), 1);
    assert_eq!(samples[0].pt, Pt { x: 0, y: 0 });
}
