//! Walks along a polyline at regular arc-length intervals, yielding the
//! sample point and the direction vector of the segment it lies on.
//!
//! Directions are integer vectors (the segment's coordinate deltas), the
//! grid's substitute for a tangent angle; a perpendicular is obtained by
//! rotating the vector a quarter turn, with no trigonometry involved.

use vstd::prelude::*;
use crate::geom::{Pt, Polyline, polyline_wf, pts_bounded, in_bounds, seg_len_spec, seg_len,
    polyline_len_spec, polyline_len, tdiv, tdiv_i128, abs_i, lemma_tdiv_mag,
    lemma_seg_len_bound, COORD_LIMIT, EXT_LIMIT, MAX_PTS};

verus! {

/// One sample: the point at a given arc-length offset and the coordinate
/// deltas of the segment that contains it.
#[derive(Clone, Copy, PartialEq, Eq, Structural, Debug)]
pub struct Sample {
    pub pt: Pt,
    pub dx: i64,
    pub dy: i64,
}

/// Interpolate one coordinate `t` of `l` grid units of the way from `a`
/// to `b`, rounding toward `a`.
pub open spec fn interp_coord(a: i64, b: i64, t: int, l: int) -> int {
    a + tdiv((b - a) * t, l)
}

/// The sample at arc-length offset `t` from the start of the chain:
/// zero-length segments are skipped, and an offset past the chain's end
/// falls back to the final vertex with the final segment's direction.
pub open spec fn sample_on(s: Seq<Pt>, t: int) -> Sample
    decreases s.len(),
{
    if s.len() < 2 {
        Sample { pt: Pt { x: 0, y: 0 }, dx: 0, dy: 0 }
    } else {
        let l = seg_len_spec(s[0], s[1]);
        if 0 < l && t <= l {
            Sample {
                pt: Pt {
                    x: interp_coord(s[0].x, s[1].x, t, l) as i64,
                    y: interp_coord(s[0].y, s[1].y, t, l) as i64,
                },
                dx: (s[1].x - s[0].x) as i64,
                dy: (s[1].y - s[0].y) as i64,
            }
        } else if s.len() == 2 {
            Sample { pt: s[1], dx: (s[1].x - s[0].x) as i64, dy: (s[1].y - s[0].y) as i64 }
        } else {
            sample_on(s.drop_first(), t - l)
        }
    }
}

/// How many samples a walk of step `d` takes along a chain of length `len`:
/// one for every multiple of `d` below `len`.
pub open spec fn num_samples(len: int, d: int) -> int {
    if len <= 0 {
        0
    } else {
        (len - 1) / d + 1
    }
}

/// Interpolated coordinates stay between the segment's endpoints.
pub proof fn lemma_interp_bounds(a: i64, b: i64, t: int, l: int)
    requires
        -COORD_LIMIT <= a <= COORD_LIMIT,
        -COORD_LIMIT <= b <= COORD_LIMIT,
        0 <= t <= l,
        1 <= l,
    ensures
        -COORD_LIMIT <= interp_coord(a, b, t, l) <= COORD_LIMIT,
{
    let d = b - a;
    assert(abs_i(d * t) <= abs_i(d) * l) by (nonlinear_arith)
        requires 0 <= t <= l,
    ;
    lemma_tdiv_mag(d * t, l, abs_i(d));
    if d >= 0 {
        assert(d * t >= 0) by (nonlinear_arith)
            requires d >= 0, t >= 0,
        ;
        vstd::arithmetic::div_mod::lemma_div_pos_is_pos(d * t, l);
        assert(a <= a + tdiv(d * t, l) <= a + d);
    } else {
        assert(d * t <= 0) by (nonlinear_arith)
            requires d < 0, t >= 0,
        ;
        vstd::arithmetic::div_mod::lemma_div_pos_is_pos(-(d * t), l);
        assert(tdiv(d * t, l) <= 0);
        assert(a + d <= a + tdiv(d * t, l) <= a);
    }
}

/// Compute the sample at arc-length offset `t`.
pub fn sample_at(line: &Polyline, t: u64) -> (r: Sample)
    requires
        polyline_wf(line@),
    ensures
        r == sample_on(line@, t as int),
        in_bounds(r.pt, COORD_LIMIT),
        -2 * COORD_LIMIT <= r.dx <= 2 * COORD_LIMIT,
        -2 * COORD_LIMIT <= r.dy <= 2 * COORD_LIMIT,
{
    let n = line.pts.len();
    let mut i: usize = 0;
    let mut t_left: u64 = t;
    proof {
        assert(line@.subrange(0, n as int) =~= line@);
    }
    loop
        invariant
            polyline_wf(line@),
            n == line@.len(),
            i + 2 <= n,
            sample_on(line@, t as int) == sample_on(
                line@.subrange(i as int, n as int),
                t_left as int,
            ),
        decreases n - i,
    {
        let ghost suffix = line@.subrange(i as int, n as int);
        let a = line.pts[i];
        let b = line.pts[i + 1];
        proof {
            assert(suffix[0] == a && suffix[1] == b);
            assert(in_bounds(a, COORD_LIMIT) && in_bounds(b, COORD_LIMIT));
        }
        let l = seg_len(a, b);
        if 0 < l && t_left <= l {
            proof {
                lemma_interp_bounds(a.x, b.x, t_left as int, l as int);
                lemma_interp_bounds(a.y, b.y, t_left as int, l as int);
                assert(abs_i((b.x - a.x) * (t_left as int)) <= abs_i(b.x - a.x) * (l as int))
                    by (nonlinear_arith)
                    requires 0 <= t_left as int <= l as int,
                ;
                assert(abs_i((b.y - a.y) * (t_left as int)) <= abs_i(b.y - a.y) * (l as int))
                    by (nonlinear_arith)
                    requires 0 <= t_left as int <= l as int,
                ;
                lemma_tdiv_mag((b.x - a.x) * (t_left as int), l as int, abs_i(b.x - a.x));
                lemma_tdiv_mag((b.y - a.y) * (t_left as int), l as int, abs_i(b.y - a.y));
            }
            proof {
                assert(abs_i((b.x - a.x) * (t_left as int)) <= 0x2_0000_0000_0000_0000_0000_0000int)
                    by (nonlinear_arith)
                    requires
                        -0x1_0000_0000int <= b.x - a.x <= 0x1_0000_0000int,
                        0 <= t_left as int <= 0x1_0000_0000_0000_0000int,
                ;
                assert(abs_i((b.y - a.y) * (t_left as int)) <= 0x2_0000_0000_0000_0000_0000_0000int)
                    by (nonlinear_arith)
                    requires
                        -0x1_0000_0000int <= b.y - a.y <= 0x1_0000_0000int,
                        0 <= t_left as int <= 0x1_0000_0000_0000_0000int,
                ;
            }
            let num_x: i128 = (b.x as i128 - a.x as i128) * (t_left as i128);
            let num_y: i128 = (b.y as i128 - a.y as i128) * (t_left as i128);
            let qx = tdiv_i128(num_x, l as i128);
            let qy = tdiv_i128(num_y, l as i128);
            let pt = Pt { x: a.x + qx as i64, y: a.y + qy as i64 };
            return Sample { pt, dx: b.x - a.x, dy: b.y - a.y };
        } else if i + 2 == n {
            return Sample { pt: b, dx: b.x - a.x, dy: b.y - a.y };
        }
        proof {
            assert(suffix.drop_first() =~= line@.subrange(i as int + 1, n as int));
            assert(sample_on(suffix, t_left as int) == sample_on(
                suffix.drop_first(),
                t_left as int - l,
            ));
        }
        t_left = t_left - l;
        i += 1;
    }
}

/// Walk the polyline at arc-length offsets `0, d, 2d, ...` strictly below
/// its total length, yielding a sample at each offset.
pub fn step_along_line(line: &Polyline, interval: u64) -> (r: Vec<Sample>)
    requires
        polyline_wf(line@),
        1 <= interval,
    ensures
        r@.len() == num_samples(polyline_len_spec(line@), interval as int),
        forall|k: int| 0 <= k < r@.len() ==> r@[k] == sample_on(line@, k * interval),
        forall|k: int| 0 <= k < r@.len() ==> in_bounds((#[trigger] r@[k]).pt, COORD_LIMIT),
{
    let ghost s = line@;
    proof {
        crate::join_lines::lemma_pts_bounded_widen(s, COORD_LIMIT, EXT_LIMIT);
    }
    let total = polyline_len(line);
    let mut out: Vec<Sample> = Vec::new();
    if total == 0 {
        return out;
    }
    if interval >= total {
        out.push(sample_at(line, 0));
        proof {
            assert(num_samples(total as int, interval as int) == 1) by {
                vstd::arithmetic::div_mod::lemma_basic_div(total as int - 1, interval as int);
            }
            assert(out@[0] == sample_on(s, 0 * (interval as int)));
            assert(0 * (interval as int) == 0);
        }
        return out;
    }
    let mut dist: u64 = 0;
    let mut k: u64 = 0;
    while dist < total
        invariant
            polyline_wf(line@),
            s == line@,
            total == polyline_len_spec(s),
            total as int <= (MAX_PTS as int) * 0x1_0000_0000,
            1 <= interval <= total,
            dist == k * interval,
            k >= 1 ==> (k - 1) * interval < total,
            out@.len() == k,
            forall|m: int| 0 <= m < k ==> out@[m] == sample_on(s, m * interval),
            forall|m: int| 0 <= m < out@.len() ==> in_bounds((#[trigger] out@[m]).pt, COORD_LIMIT),
        decreases total + interval - dist,
    {
        out.push(sample_at(line, dist));
        proof {
            assert(k as int <= (k as int) * (interval as int)) by (nonlinear_arith)
                requires interval >= 1, k >= 0,
            ;
            assert((k + 1) * interval == k * interval + interval) by (nonlinear_arith);
        }
        k = k + 1;
        dist = dist + interval;
    }
    proof {
        // `k` multiples of the interval fit strictly below `total`.
        assert(k * interval >= total);
        assert((k - 1) * interval < total);
        assert((k as int) * (interval as int) == (k as int - 1) * (interval as int) + interval)
            by (nonlinear_arith);
        assert((k - 1) * interval <= total - 1 < k * interval);
        vstd::arithmetic::div_mod::lemma_fundamental_div_mod_converse(
            total as int - 1,
            interval as int,
            k as int - 1,
            total as int - 1 - (k as int - 1) * (interval as int),
        );
        assert(num_samples(total as int, interval as int) == k);
    }
    out
}

/// Sample points stay on the grid and sample directions are bounded by one
/// segment's extent.
pub proof fn lemma_sample_on_bounds(s: Seq<Pt>, t: int)
    requires
        2 <= s.len(),
        0 <= t,
        pts_bounded(s, COORD_LIMIT),
    ensures
        in_bounds(sample_on(s, t).pt, COORD_LIMIT),
        -2 * COORD_LIMIT <= sample_on(s, t).dx <= 2 * COORD_LIMIT,
        -2 * COORD_LIMIT <= sample_on(s, t).dy <= 2 * COORD_LIMIT,
    decreases s.len(),
{
    let l = seg_len_spec(s[0], s[1]);
    crate::join_lines::lemma_pts_bounded_widen(s, COORD_LIMIT, EXT_LIMIT);
    lemma_seg_len_bound(s[0], s[1]);
    if 0 < l && t <= l {
        lemma_interp_bounds(s[0].x, s[1].x, t, l);
        lemma_interp_bounds(s[0].y, s[1].y, t, l);
    } else if s.len() == 2 {
    } else {
        let rest = s.drop_first();
        assert(pts_bounded(rest, COORD_LIMIT)) by {
            assert forall|i: int| 0 <= i < rest.len() implies in_bounds(
                #[trigger] rest[i],
                COORD_LIMIT,
            ) by {
                assert(rest[i] == s[i + 1]);
            }
        }
        lemma_sample_on_bounds(rest, t - l);
    }
}

} // verus!
