//! Splits a sampled centerline wherever the measured width drifts past a
//! granularity, slicing the original polyline by arc length.
//!
//! Samples are (arc-length offset, width) pairs in walk order. A run grows
//! greedily while each width stays within the granularity of the run's
//! first width; the sample that breaks the tolerance (or the final sample)
//! closes the run and opens the next one, so only a run's closing sample
//! may sit outside the tolerance. Each emitted piece is the original
//! polyline sliced between the run's first and last offsets, tagged with
//! the run's minimum and maximum width.

use vstd::prelude::*;
use crate::geom::{Pt, Polyline, polyline_wf, arc_len_to, seg_len, abs_i, COORD_LIMIT, EXT_LIMIT};
use crate::step_along_line::sample_on;

verus! {

/// The index that closes the run beginning at `i1`, scanning from `i2`:
/// the first index whose width leaves the tolerance around the width at
/// `i1`, or the final sample.
pub open spec fn run_end(smp: Seq<(u64, u64)>, g: u64, i1: int, i2: int) -> int
    decreases smp.len() - i2,
{
    if i2 < 0 || i2 >= smp.len() - 1 {
        i2
    } else if abs_i(smp[i2].1 - smp[i1].1) <= g {
        run_end(smp, g, i1, i2 + 1)
    } else {
        i2
    }
}

/// Minimum width among samples `i1 ..= i2`.
pub open spec fn run_min(smp: Seq<(u64, u64)>, i1: int, i2: int) -> u64
    decreases i2 - i1,
{
    if i2 <= i1 {
        smp[i1].1
    } else {
        let m = run_min(smp, i1, i2 - 1);
        if smp[i2].1 < m {
            smp[i2].1
        } else {
            m
        }
    }
}

/// Maximum width among samples `i1 ..= i2`.
pub open spec fn run_max(smp: Seq<(u64, u64)>, i1: int, i2: int) -> u64
    decreases i2 - i1,
{
    if i2 <= i1 {
        smp[i1].1
    } else {
        let m = run_max(smp, i1, i2 - 1);
        if smp[i2].1 > m {
            smp[i2].1
        } else {
            m
        }
    }
}

/// The polyline's vertices whose arc-length position lies strictly between
/// `t1` and `t2`, among the first `i`.
pub open spec fn mid_verts_to(s: Seq<Pt>, t1: int, t2: int, i: int) -> Seq<Pt>
    decreases i,
{
    if i <= 0 {
        Seq::empty()
    } else {
        mid_verts_to(s, t1, t2, i - 1) + if t1 < arc_len_to(s, i - 1) < t2 {
            seq![s[i - 1]]
        } else {
            Seq::<Pt>::empty()
        }
    }
}

/// The slice of the polyline between arc-length offsets `t1` and `t2`: the
/// interpolated point at `t1`, every vertex strictly between, and the
/// interpolated point at `t2`. Degenerates to nothing when the two cut
/// points coincide on the grid.
pub open spec fn slice_spec(s: Seq<Pt>, t1: int, t2: int) -> Option<Seq<Pt>> {
    let p1 = sample_on(s, t1).pt;
    let p2 = sample_on(s, t2).pt;
    if p1 == p2 {
        Option::None
    } else {
        Option::Some(seq![p1] + mid_verts_to(s, t1, t2, s.len() as int) + seq![p2])
    }
}

/// The greedy width segmentation, starting the current run at `i1`.
pub open spec fn split_spec(s: Seq<Pt>, smp: Seq<(u64, u64)>, g: u64, i1: int) -> Seq<
    (Seq<Pt>, u64, u64),
>
    decreases smp.len() - i1,
{
    if i1 < 0 || i1 >= smp.len() - 1 {
        Seq::empty()
    } else {
        let e = run_end(smp, g, i1, i1 + 1);
        let i2 = if e < i1 + 1 {
            i1 + 1
        } else if e > smp.len() - 1 {
            smp.len() - 1
        } else {
            e
        };
        let rest = split_spec(s, smp, g, i2);
        match slice_spec(s, smp[i1].0 as int, smp[i2].0 as int) {
            Option::Some(pts) => seq![(pts, run_min(smp, i1, i2), run_max(smp, i1, i2))] + rest,
            Option::None => rest,
        }
    }
}

/// The run's closing index lies between `i2` and the final sample.
pub proof fn lemma_run_end_range(smp: Seq<(u64, u64)>, g: u64, i1: int, i2: int)
    requires
        0 <= i2 <= smp.len() - 1,
    ensures
        i2 <= run_end(smp, g, i1, i2) <= smp.len() - 1,
    decreases smp.len() - i2,
{
    if i2 < smp.len() - 1 && abs_i(smp[i2].1 - smp[i1].1) <= g {
        lemma_run_end_range(smp, g, i1, i2 + 1);
    }
}

/// Run bounds law: every sample of a run lies between the run's recorded
/// minimum and maximum widths.
pub proof fn lemma_run_min_max(smp: Seq<(u64, u64)>, i1: int, i2: int, k: int)
    requires
        i1 <= k <= i2,
    ensures
        run_min(smp, i1, i2) <= smp[k].1,
        smp[k].1 <= run_max(smp, i1, i2),
    decreases i2 - i1,
{
    if i2 > i1 && k < i2 {
        lemma_run_min_max(smp, i1, i2 - 1, k);
    }
}

/// Greedy tolerance law: every sample a run scans past, before the sample
/// that closes it, stays within the granularity of the run's first width.
/// Only the closing sample of a run may sit outside the tolerance.
pub proof fn lemma_run_tolerance(smp: Seq<(u64, u64)>, g: u64, i1: int, j: int, k: int)
    requires
        0 <= j,
        j <= k < run_end(smp, g, i1, j),
    ensures
        abs_i(smp[k].1 - smp[i1].1) <= g,
    decreases smp.len() - j,
{
    if j < smp.len() - 1 && abs_i(smp[j].1 - smp[i1].1) <= g {
        if k > j {
            lemma_run_tolerance(smp, g, i1, j + 1, k);
        }
    }
}

/// Whether two widths differ by at most the granularity.
fn within_tol(a: u64, b: u64, g: u64) -> (r: bool)
    ensures
        r == (abs_i(a as int - b as int) <= g as int),
{
    if a >= b {
        a - b <= g
    } else {
        b - a <= g
    }
}

/// Mirror of `run_end` by loop.
fn run_end_exec(samples: &Vec<(u64, u64)>, g: u64, i1: usize) -> (r: usize)
    requires
        i1 + 1 <= samples@.len() - 1,
    ensures
        r == run_end(samples@, g, i1 as int, i1 as int + 1),
        i1 + 1 <= r <= samples@.len() - 1,
{
    let n = samples.len();
    let w1 = samples[i1].1;
    let mut j: usize = i1 + 1;
    proof {
        lemma_run_end_range(samples@, g, i1 as int, i1 as int + 1);
    }
    while j < n - 1 && within_tol(samples[j].1, w1, g)
        invariant
            i1 + 1 <= j <= samples@.len() - 1,
            n == samples@.len(),
            w1 == samples@[i1 as int].1,
            run_end(samples@, g, i1 as int, i1 as int + 1) == run_end(
                samples@,
                g,
                i1 as int,
                j as int,
            ),
        decreases n - j,
    {
        j += 1;
    }
    j
}

/// Slice the polyline between two arc-length offsets.
pub fn slice(line: &Polyline, t1: u64, t2: u64) -> (r: Option<Polyline>)
    requires
        polyline_wf(line@),
    ensures
        slice_spec(line@, t1 as int, t2 as int) == (match r {
            Option::Some(pl) => Option::Some(pl@),
            Option::None => Option::<Seq<Pt>>::None,
        }),
        r matches Option::Some(pl) ==> pl@.len() >= 2,
{
    let ghost s = line@;
    let smp1 = crate::step_along_line::sample_at(line, t1);
    let smp2 = crate::step_along_line::sample_at(line, t2);
    let p1 = smp1.pt;
    let p2 = smp2.pt;
    if p1 == p2 {
        return Option::None;
    }
    let mut pts: Vec<Pt> = Vec::new();
    pts.push(p1);
    let n = line.pts.len();
    let mut pos: u64 = 0;
    let mut i: usize = 0;
    proof {
        crate::join_lines::lemma_pts_bounded_widen(s, COORD_LIMIT, EXT_LIMIT);
        assert(pts@ =~= seq![p1] + mid_verts_to(s, t1 as int, t2 as int, 0));
    }
    while i < n
        invariant
            0 <= i <= n,
            n == s.len(),
            polyline_wf(s),
            s == line@,
            i < n ==> pos == arc_len_to(s, i as int),
            pos as int <= (i as int) * 0x1_0000_0000,
            pts@ == seq![p1] + mid_verts_to(s, t1 as int, t2 as int, i as int),
        decreases n - i,
    {
        proof {
            crate::geom::lemma_arc_len_to_bounds(s, i as int);
        }
        if t1 < pos && pos < t2 {
            pts.push(line.pts[i]);
            proof {
                assert(pts@ =~= seq![p1] + mid_verts_to(s, t1 as int, t2 as int, i as int + 1));
            }
        } else {
            proof {
                assert(pts@ =~= seq![p1] + mid_verts_to(s, t1 as int, t2 as int, i as int + 1));
            }
        }
        if i + 1 < n {
            proof {
                crate::geom::lemma_arc_len_to_bounds(s, i as int + 1);
            }
            pos = pos + seg_len(line.pts[i], line.pts[i + 1]);
        }
        i += 1;
    }
    pts.push(p2);
    proof {
        assert(pts@ =~= seq![p1] + mid_verts_to(s, t1 as int, t2 as int, s.len() as int)
            + seq![p2]);
    }
    Option::Some(Polyline { pts })
}

/// Map the emitted pieces to their mathematical views.
pub open spec fn pieces_view(r: Seq<(Polyline, u64, u64)>) -> Seq<(Seq<Pt>, u64, u64)> {
    r.map_values(|t: (Polyline, u64, u64)| (t.0@, t.1, t.2))
}

/// Split the centerline into width runs: each piece is the polyline sliced
/// between a greedy run's first and last sample offsets, tagged with the
/// run's minimum and maximum width.
pub fn split(line: &Polyline, samples: &Vec<(u64, u64)>, granularity: u64) -> (r: Vec<
    (Polyline, u64, u64),
>)
    requires
        polyline_wf(line@),
    ensures
        pieces_view(r@) == split_spec(line@, samples@, granularity, 0),
        forall|m: int| 0 <= m < r@.len() ==> (#[trigger] r@[m]).1 <= r@[m].2,
{
    let ghost s = line@;
    let ghost smp = samples@;
    let n = samples.len();
    let mut out: Vec<(Polyline, u64, u64)> = Vec::new();
    if n < 2 {
        proof {
            assert(pieces_view(out@) =~= split_spec(s, smp, granularity, 0));
        }
        return out;
    }
    let mut i1: usize = 0;
    proof {
        assert(pieces_view(out@) + split_spec(s, smp, granularity, 0) =~= split_spec(
            s,
            smp,
            granularity,
            0,
        ));
    }
    while i1 < n - 1
        invariant
            0 <= i1 <= smp.len(),
            n == smp.len(),
            n >= 2,
            polyline_wf(s),
            s == line@,
            smp == samples@,
            split_spec(s, smp, granularity, 0) == pieces_view(out@) + split_spec(
                s,
                smp,
                granularity,
                i1 as int,
            ),
            forall|m: int| 0 <= m < out@.len() ==> (#[trigger] out@[m]).1 <= out@[m].2,
        decreases n - i1,
    {
        let i2 = run_end_exec(samples, granularity, i1);
        let ghost e = run_end(smp, granularity, i1 as int, i1 as int + 1);
        proof {
            assert(e == i2 as int);
            assert((if e < i1 as int + 1 {
                i1 as int + 1
            } else if e > smp.len() - 1 {
                smp.len() - 1
            } else {
                e
            }) == i2 as int);
        }
        let t1 = samples[i1].0;
        let t2 = samples[i2].0;
        match slice(line, t1, t2) {
            Option::Some(piece) => {
                // The run's recorded widths: minimum and maximum over the run.
                let mut lo = samples[i1].1;
                let mut hi = samples[i1].1;
                let mut k: usize = i1 + 1;
                while k <= i2
                    invariant
                        (i1 as int) < k as int <= i2 as int + 1,
                        n == smp.len(),
                        i2 < n,
                        smp == samples@,
                        lo == run_min(smp, i1 as int, k as int - 1),
                        hi == run_max(smp, i1 as int, k as int - 1),
                    decreases i2 as int + 1 - k as int,
                {
                    let w = samples[k].1;
                    if w < lo {
                        lo = w;
                    }
                    if w > hi {
                        hi = w;
                    }
                    k += 1;
                }
                proof {
                    lemma_run_min_max(smp, i1 as int, i2 as int, i1 as int);
                }
                out.push((piece, lo, hi));
                proof {
                    assert(pieces_view(out@) =~= pieces_view(out@.drop_last()) + seq![
                        (piece@, lo, hi)]);
                }
            },
            Option::None => {},
        }
        proof {
            assert(split_spec(s, smp, granularity, i1 as int) == (match slice_spec(
                s,
                smp[i1 as int].0 as int,
                smp[i2 as int].0 as int,
            ) {
                Option::Some(pts) => seq![
                    (pts, run_min(smp, i1 as int, i2 as int), run_max(smp, i1 as int, i2 as int))]
                    + split_spec(s, smp, granularity, i2 as int),
                Option::None => split_spec(s, smp, granularity, i2 as int),
            }));
        }
        i1 = i2;
    }
    proof {
        assert(split_spec(s, smp, granularity, i1 as int) =~= Seq::<(Seq<Pt>, u64, u64)>::empty());
        assert(pieces_view(out@) =~= pieces_view(out@) + split_spec(s, smp, granularity, i1 as int));
    }
    out
}

} // verus!
