//! The pavement pipeline: one polygon in, centerline skeletons, width
//! probes, thickened strips and width-tagged centerline pieces out.
//!
//! The straight-skeleton primitive itself is an outside capability with a
//! float interface, so `calculate` takes its quantized output — one
//! candidate fragment set per orientation convention, in trial order — and
//! carries out everything the pipeline decides: filtering, joining,
//! pruning, perpendicular width sampling, clipping, thickening and width
//! segmentation, all on the integer grid.

use vstd::prelude::*;
use crate::geom::{Pt, Polyline, Polygon, Segment, polyline_wf, ring_wf, polygon_wf, pts_bounded,
    in_bounds, dist2_spec, dist2_u64, seg_len_spec, seg_len, sq, abs_i, tdiv, tdiv_i128,
    sqrt_floor, isqrt_u64, polyline_len_spec, polyline_len, lemma_tdiv_mag, lemma_sqrt_floor_bounds,
    lemma_sqrt_floor_unique, lemma_pt_widen, COORD_LIMIT, EXT_LIMIT, MAX_PTS};
use crate::join_lines::{views, frags_wf, joinable, joined_from, join_linestrings, pts_total,
    pts_total_to, pt_of, lemma_joined_from_pts, lemma_pts_bounded_widen, FRAG_LEN_MAX};
use crate::step_along_line::{Sample, sample_on, sample_at, num_samples, step_along_line,
    lemma_sample_on_bounds};
use crate::clip::{clip_spec, clip_line_to_polygon};
use crate::split_line::{split_spec, pieces_view, split};

verus! {

/// How far a probe extends to each side of its sample point, in
/// millimeters (100 m, far beyond any plausible pavement width).
pub const PROJECT_AWAY: u64 = 100_000;

/// Twice the signed shoelace sum of the first `i` edges of a ring.
pub open spec fn shoelace_to(ring: Seq<Pt>, i: int) -> int
    decreases i,
{
    if i <= 0 {
        0
    } else {
        shoelace_to(ring, i - 1) + (ring[i - 1].x * ring[i].y - ring[i].x * ring[i - 1].y)
    }
}

/// Twice a ring's unsigned area, in square millimeters.
pub open spec fn ring_area2(ring: Seq<Pt>) -> int {
    abs_i(shoelace_to(ring, ring.len() - 1))
}

proof fn lemma_shoelace_bound(ring: Seq<Pt>, i: int)
    requires
        pts_bounded(ring, COORD_LIMIT),
        0 <= i < ring.len(),
    ensures
        abs_i(shoelace_to(ring, i)) <= i * 0x2000_0000_0000_0000,
    decreases i,
{
    if i > 0 {
        lemma_shoelace_bound(ring, i - 1);
        let c = COORD_LIMIT as int;
        assert(abs_i(ring[i - 1].x * ring[i].y) <= c * c && abs_i(ring[i].x * ring[i - 1].y) <= c
            * c) by (nonlinear_arith)
            requires
                -c <= ring[i - 1].x <= c,
                -c <= ring[i - 1].y <= c,
                -c <= ring[i].x <= c,
                -c <= ring[i].y <= c,
        ;
        assert((i - 1) * 0x2000_0000_0000_0000 + 0x2000_0000_0000_0000 == i
            * 0x2000_0000_0000_0000) by (nonlinear_arith);
    }
}

/// Twice a ring's unsigned area, computed exactly.
fn ring_area2_exec(ring: &Polyline) -> (r: u128)
    requires
        ring_wf(ring@),
    ensures
        r == ring_area2(ring@),
{
    let n = ring.pts.len();
    let mut acc: i128 = 0;
    let mut i: usize = 1;
    while i < n
        invariant
            1 <= i <= n,
            n == ring@.len(),
            ring_wf(ring@),
            acc == shoelace_to(ring@, i - 1),
            abs_i(acc as int) <= (i as int - 1) * 0x2000_0000_0000_0000,
        decreases n - i,
    {
        proof {
            lemma_shoelace_bound(ring@, i - 1);
            lemma_shoelace_bound(ring@, i as int);
        }
        let a = ring.pts[i - 1];
        let b = ring.pts[i];
        proof {
            let c = COORD_LIMIT as int;
            assert(abs_i(a.x * b.y) <= c * c && abs_i(b.x * a.y) <= c * c) by (nonlinear_arith)
                requires -c <= a.x <= c, -c <= a.y <= c, -c <= b.x <= c, -c <= b.y <= c,
            ;
        }
        acc = acc + ((a.x as i128) * (b.y as i128) - (b.x as i128) * (a.y as i128));
        i += 1;
    }
    if acc >= 0 {
        acc as u128
    } else {
        (-acc) as u128
    }
}

/// Whether the edge `(a, b)` crosses the horizontal ray running right from
/// `p`, by the half-open even-odd rule.
pub open spec fn edge_crosses(p: Pt, a: Pt, b: Pt) -> bool {
    ((a.y > p.y) != (b.y > p.y)) && {
        let dy = b.y - a.y;
        let num = (b.x - a.x) * (p.y - a.y) - (p.x - a.x) * dy;
        if dy > 0 {
            num > 0
        } else {
            num < 0
        }
    }
}

/// Ray crossings against the first `i` edges of a ring.
pub open spec fn crossings_to(ring: Seq<Pt>, p: Pt, i: int) -> int
    decreases i,
{
    if i <= 0 {
        0
    } else {
        crossings_to(ring, p, i - 1) + if edge_crosses(p, ring[i - 1], ring[i]) {
            1int
        } else {
            0int
        }
    }
}

/// Whether `p` lies inside the closed ring, by the even-odd rule (points
/// exactly on the boundary count by the half-open edge rule).
pub open spec fn in_ring(ring: Seq<Pt>, p: Pt) -> bool {
    crossings_to(ring, p, ring.len() - 1) % 2 == 1
}

/// Exact even-odd point-in-ring test by ray casting.
fn in_ring_exec(ring: &Polyline, p: Pt) -> (r: bool)
    requires
        ring_wf(ring@),
        in_bounds(p, COORD_LIMIT),
    ensures
        r == in_ring(ring@, p),
{
    let n = ring.pts.len();
    let mut cnt: u64 = 0;
    let mut i: usize = 1;
    while i < n
        invariant
            1 <= i <= n,
            n == ring@.len(),
            n <= MAX_PTS,
            ring_wf(ring@),
            in_bounds(p, COORD_LIMIT),
            cnt == crossings_to(ring@, p, i - 1),
            cnt <= i - 1,
        decreases n - i,
    {
        let a = ring.pts[i - 1];
        let b = ring.pts[i];
        let mut hit = false;
        if (a.y > p.y) != (b.y > p.y) {
            let dy: i128 = b.y as i128 - a.y as i128;
            proof {
                let c = COORD_LIMIT as int;
                assert(abs_i((b.x - a.x) * (p.y - a.y)) <= (2 * c) * (2 * c) && abs_i(
                    (p.x - a.x) * (b.y - a.y),
                ) <= (2 * c) * (2 * c)) by (nonlinear_arith)
                    requires
                        -2 * c <= b.x - a.x <= 2 * c,
                        -2 * c <= p.y - a.y <= 2 * c,
                        -2 * c <= p.x - a.x <= 2 * c,
                        -2 * c <= b.y - a.y <= 2 * c,
                ;
            }
            let num: i128 = (b.x as i128 - a.x as i128) * (p.y as i128 - a.y as i128) - (p.x
                as i128 - a.x as i128) * dy;
            if dy > 0 {
                hit = num > 0;
            } else {
                hit = num < 0;
            }
        }
        proof {
            assert(hit == edge_crosses(p, ring@[i - 1], ring@[i as int]));
        }
        if hit {
            cnt = cnt + 1;
        }
        i += 1;
    }
    cnt % 2 == 1
}

/// Whether `p` lies strictly within the polygon's surface: inside the
/// exterior ring and outside every hole, by the even-odd rule.
pub open spec fn pt_in_polygon(pg: Polygon, p: Pt) -> bool {
    in_ring(pg.exterior@, p) && forall|h: int| 0 <= h < pg.holes@.len() ==> !in_ring(
        (#[trigger] pg.holes@[h])@,
        p,
    )
}

fn pt_in_polygon_exec(pg: &Polygon, p: Pt) -> (r: bool)
    requires
        polygon_wf(*pg),
        in_bounds(p, COORD_LIMIT),
    ensures
        r == pt_in_polygon(*pg, p),
{
    if !in_ring_exec(&pg.exterior, p) {
        return false;
    }
    let mut h: usize = 0;
    while h < pg.holes.len()
        invariant
            0 <= h <= pg.holes@.len(),
            polygon_wf(*pg),
            in_bounds(p, COORD_LIMIT),
            in_ring(pg.exterior@, p),
            forall|m: int| 0 <= m < h ==> !in_ring((#[trigger] pg.holes@[m])@, p),
        decreases pg.holes@.len() - h,
    {
        if in_ring_exec(&pg.holes[h], p) {
            return false;
        }
        h += 1;
    }
    true
}

/// Whether `p` lies within `thr` millimeters of the segment `(a, b)`.
pub open spec fn pt_near_seg(p: Pt, a: Pt, b: Pt, thr: u64) -> bool {
    let ab2 = dist2_spec(a, b);
    let dot = (p.x - a.x) * (b.x - a.x) + (p.y - a.y) * (b.y - a.y);
    if ab2 == 0 || dot <= 0 {
        dist2_spec(p, a) < (thr as int) * (thr as int)
    } else if dot >= ab2 {
        dist2_spec(p, b) < (thr as int) * (thr as int)
    } else {
        let cr = (b.x - a.x) * (p.y - a.y) - (b.y - a.y) * (p.x - a.x);
        cr * cr < ((thr as int) * (thr as int)) * ab2
    }
}

/// Exact point-to-segment distance comparison, by cases on the projection
/// of `p` onto the segment's carrier line.
fn pt_near_seg_exec(p: Pt, a: Pt, b: Pt, thr: u64) -> (r: bool)
    requires
        in_bounds(p, COORD_LIMIT),
        in_bounds(a, COORD_LIMIT),
        in_bounds(b, COORD_LIMIT),
        thr <= COORD_LIMIT as u64,
    ensures
        r == pt_near_seg(p, a, b, thr),
{
    proof {
        lemma_pt_widen(a, b);
        lemma_pt_widen(p, p);
        crate::geom::lemma_dist2_bound(a, b);
        crate::geom::lemma_dist2_bound(p, a);
        crate::geom::lemma_dist2_bound(p, b);
        let c = COORD_LIMIT as int;
        assert(0 <= (thr as int) * (thr as int) <= c * c) by (nonlinear_arith)
            requires 0 <= thr as int <= c, c > 0,
        ;
        assert(c * c == 0x1000_0000_0000_0000) by (nonlinear_arith)
            requires c == 0x4000_0000int,
        ;
        assert(abs_i((p.x - a.x) * (b.x - a.x)) <= (2 * c) * (2 * c) && abs_i(
            (p.y - a.y) * (b.y - a.y),
        ) <= (2 * c) * (2 * c) && abs_i((b.x - a.x) * (p.y - a.y)) <= (2 * c) * (2 * c) && abs_i(
            (b.y - a.y) * (p.x - a.x),
        ) <= (2 * c) * (2 * c)) by (nonlinear_arith)
            requires
                -2 * c <= p.x - a.x <= 2 * c,
                -2 * c <= p.y - a.y <= 2 * c,
                -2 * c <= b.x - a.x <= 2 * c,
                -2 * c <= b.y - a.y <= 2 * c,
        ;
        assert((2 * c) * (2 * c) == 4 * (c * c)) by (nonlinear_arith);
    }
    let ab2: u64 = dist2_u64(a, b);
    let t2: u128 = (thr as u128) * (thr as u128);
    let dot: i128 = (p.x as i128 - a.x as i128) * (b.x as i128 - a.x as i128) + (p.y as i128 - a.y
        as i128) * (b.y as i128 - a.y as i128);
    if ab2 == 0 || dot <= 0 {
        (dist2_u64(p, a) as u128) < t2
    } else if dot >= ab2 as i128 {
        (dist2_u64(p, b) as u128) < t2
    } else {
        let cr: i128 = (b.x as i128 - a.x as i128) * (p.y as i128 - a.y as i128) - (b.y as i128
            - a.y as i128) * (p.x as i128 - a.x as i128);
        proof {
            let c = COORD_LIMIT as int;
            assert(cr as int * cr as int <= ((4 * (c * c)) + (4 * (c * c))) * ((4 * (c * c)) + (4
                * (c * c))) && cr as int * cr as int >= 0) by (nonlinear_arith)
                requires abs_i(cr as int) <= (4 * (c * c)) + (4 * (c * c)),
            ;
            assert(((thr as int) * (thr as int)) * (ab2 as int) <= ((c * c)) * (
            0xFFFF_FFFF_FFFF_FFFFint)) by (nonlinear_arith)
                requires
                    0 <= (thr as int) * (thr as int) <= c * c,
                    0 <= ab2 as int <= 0xFFFF_FFFF_FFFF_FFFFint,
                    c == COORD_LIMIT as int,
            ;
        }
        let lhs: i128 = cr * cr;
        let rhs: u128 = t2 * (ab2 as u128);
        (lhs as u128) < rhs
    }
}

/// Whether `p` lies within `thr` of any edge of the ring.
pub open spec fn pt_near_ring_to(ring: Seq<Pt>, p: Pt, thr: u64, i: int) -> bool
    decreases i,
{
    if i <= 0 {
        false
    } else {
        pt_near_ring_to(ring, p, thr, i - 1) || pt_near_seg(p, ring[i - 1], ring[i], thr)
    }
}

/// Whether `p` lies within `thr` of any boundary ring of the polygon.
pub open spec fn pt_near_boundary(pg: Polygon, p: Pt, thr: u64) -> bool {
    pt_near_ring_to(pg.exterior@, p, thr, pg.exterior@.len() - 1) || exists|h: int|
        0 <= h < pg.holes@.len() && pt_near_ring_to(
            (#[trigger] pg.holes@[h])@,
            p,
            thr,
            pg.holes@[h]@.len() - 1,
        )
}

fn pt_near_ring_exec(ring: &Polyline, p: Pt, thr: u64) -> (r: bool)
    requires
        ring_wf(ring@),
        in_bounds(p, COORD_LIMIT),
        thr <= COORD_LIMIT as u64,
    ensures
        r == pt_near_ring_to(ring@, p, thr, ring@.len() - 1),
{
    let n = ring.pts.len();
    let mut i: usize = 1;
    while i < n
        invariant
            1 <= i <= n,
            n == ring@.len(),
            ring_wf(ring@),
            in_bounds(p, COORD_LIMIT),
            thr <= COORD_LIMIT as u64,
            !pt_near_ring_to(ring@, p, thr, i - 1),
        decreases n - i,
    {
        if pt_near_seg_exec(p, ring.pts[i - 1], ring.pts[i], thr) {
            proof {
                assert(pt_near_ring_to(ring@, p, thr, ring@.len() - 1)) by {
                    lemma_near_ring_monotone(ring@, p, thr, i as int, ring@.len() - 1);
                }
            }
            return true;
        }
        i += 1;
    }
    false
}

proof fn lemma_near_ring_monotone(ring: Seq<Pt>, p: Pt, thr: u64, i: int, j: int)
    requires
        0 <= i <= j,
        pt_near_ring_to(ring, p, thr, i),
    ensures
        pt_near_ring_to(ring, p, thr, j),
    decreases j - i,
{
    if i < j {
        lemma_near_ring_monotone(ring, p, thr, i, j - 1);
    }
}

fn pt_near_boundary_exec(pg: &Polygon, p: Pt, thr: u64) -> (r: bool)
    requires
        polygon_wf(*pg),
        in_bounds(p, COORD_LIMIT),
        thr <= COORD_LIMIT as u64,
    ensures
        r == pt_near_boundary(*pg, p, thr),
{
    if pt_near_ring_exec(&pg.exterior, p, thr) {
        return true;
    }
    let mut h: usize = 0;
    while h < pg.holes.len()
        invariant
            0 <= h <= pg.holes@.len(),
            polygon_wf(*pg),
            in_bounds(p, COORD_LIMIT),
            thr <= COORD_LIMIT as u64,
            !pt_near_ring_to(pg.exterior@, p, thr, pg.exterior@.len() - 1),
            forall|m: int| 0 <= m < h ==> !pt_near_ring_to(
                (#[trigger] pg.holes@[m])@,
                p,
                thr,
                pg.holes@[m]@.len() - 1,
            ),
        decreases pg.holes@.len() - h,
    {
        if pt_near_ring_exec(&pg.holes[h], p, thr) {
            return true;
        }
        h += 1;
    }
    false
}

/// The thresholds and toggles steering every heuristic step. Distances are
/// millimeters, areas square millimeters, ratios parts per million.
pub struct Config {
    /// Drop holes with unsigned area strictly below this, in mm^2.
    pub remove_holes: Option<u64>,
    /// Discard skeleton fragments not inside the polygon.
    pub filter_skeletons_outside: bool,
    /// Discard fragments with an endpoint closer than this to a boundary, mm.
    pub filter_skeletons_near_boundary: Option<u64>,
    /// Merge fragments that share endpoints.
    pub join_skeletons: bool,
    /// Prune fragments shorter than this ratio of the longest, ppm.
    pub remove_short_skeletons: Option<u32>,
    /// Arc-length sampling interval, mm; absent skips width sampling.
    pub make_perps_step_size: Option<u64>,
    /// Plausibility threshold for clipped probes, ppm.
    pub perp_midpoint_ratio: Option<u32>,
    /// Split the centerline when the width drifts past this, mm.
    pub width_granularity: u64,
}

impl Config {
    /// Thresholds within the ranges the grid arithmetic supports.
    pub open spec fn wf(self) -> bool {
        &&& (self.filter_skeletons_near_boundary matches Option::Some(t) ==> t
            <= COORD_LIMIT as u64)
        &&& (self.remove_short_skeletons matches Option::Some(t) ==> t <= 1_000_000)
        &&& (self.make_perps_step_size matches Option::Some(d) ==> 1 <= d)
        &&& (self.perp_midpoint_ratio matches Option::Some(t) ==> t <= 1_000_000)
    }
}

impl Default for Config {
    /// The tuning the pipeline ships with: drop holes up to 100 m^2, keep
    /// fragments clear of the boundary by 0.1 m, join, prune below a tenth
    /// of the longest fragment, sample every 5 m, require a midpoint ratio
    /// of one half, and split on half-meter width drift.
    fn default() -> (r: Config)
        ensures
            r == (Config {
                remove_holes: Option::Some(100_000_000u64),
                filter_skeletons_outside: true,
                filter_skeletons_near_boundary: Option::Some(100u64),
                join_skeletons: true,
                remove_short_skeletons: Option::Some(100_000u32),
                make_perps_step_size: Option::Some(5_000u64),
                perp_midpoint_ratio: Option::Some(500_000u32),
                width_granularity: 500u64,
            }),
            r.wf(),
    {
        Config {
            remove_holes: Option::Some(100_000_000),
            filter_skeletons_outside: true,
            filter_skeletons_near_boundary: Option::Some(100),
            join_skeletons: true,
            remove_short_skeletons: Option::Some(100_000),
            make_perps_step_size: Option::Some(5_000),
            perp_midpoint_ratio: Option::Some(500_000),
            width_granularity: 500,
        }
    }
}

/// The hole views kept by the hole-removal preprocessing: those with
/// unsigned area above the threshold.
pub open spec fn kept_hole_views(hs: Seq<Seq<Pt>>, limit: Option<u64>, i: int) -> Seq<Seq<Pt>>
    decreases i,
{
    if i <= 0 {
        Seq::empty()
    } else {
        kept_hole_views(hs, limit, i - 1) + (match limit {
            Option::Some(l) => if ring_area2(hs[i - 1]) >= 2 * l {
                seq![hs[i - 1]]
            } else {
                Seq::<Seq<Pt>>::empty()
            },
            Option::None => seq![hs[i - 1]],
        })
    }
}

/// Every kept hole's area clears the threshold.
pub proof fn lemma_kept_holes_area(hs: Seq<Seq<Pt>>, limit: Option<u64>, i: int)
    requires
        limit is Some,
    ensures
        forall|m: int| 0 <= m < kept_hole_views(hs, limit, i).len() ==> ring_area2(
            #[trigger] kept_hole_views(hs, limit, i)[m],
        ) >= 2 * (limit->Some_0),
    decreases i,
{
    if i > 0 {
        lemma_kept_holes_area(hs, limit, i - 1);
        let prev = kept_hole_views(hs, limit, i - 1);
        let cur = kept_hole_views(hs, limit, i);
        assert forall|m: int| 0 <= m < cur.len() implies ring_area2(#[trigger] cur[m]) >= 2 * (
        limit->Some_0) by {
            if m < prev.len() {
                assert(cur[m] == prev[m]);
            } else {
                assert(cur[m] == hs[i - 1]);
            }
        }
    }
}

/// Every vertex of the fragment lies within the polygon's surface. This is
/// the grid reading of "fully contained": skeleton fragments that escape
/// the polygon carry vertices outside it.
pub open spec fn line_inside(pg: Polygon, line: Seq<Pt>) -> bool {
    forall|i: int| 0 <= i < line.len() ==> pt_in_polygon(pg, #[trigger] line[i])
}

/// One of the fragment's two endpoints lies within `thr` of a boundary.
pub open spec fn endpoint_near_boundary(pg: Polygon, line: Seq<Pt>, thr: u64) -> bool {
    pt_near_boundary(pg, line[0], thr) || pt_near_boundary(pg, line[line.len() - 1], thr)
}

/// Whether a skeleton candidate fragment survives the filters.
pub open spec fn frag_ok(pg: Polygon, cfg: Config, line: Seq<Pt>) -> bool {
    (cfg.filter_skeletons_outside ==> line_inside(pg, line)) && (match cfg
        .filter_skeletons_near_boundary {
        Option::Some(t) => !endpoint_near_boundary(pg, line, t),
        Option::None => true,
    })
}

/// The fragments among the first `i` of one candidate set that survive.
pub open spec fn filter_frags(pg: Polygon, cfg: Config, cand: Seq<Seq<Pt>>, i: int) -> Seq<Seq<Pt>>
    decreases i,
{
    if i <= 0 {
        Seq::empty()
    } else {
        filter_frags(pg, cfg, cand, i - 1) + if frag_ok(pg, cfg, cand[i - 1]) {
            seq![cand[i - 1]]
        } else {
            Seq::<Seq<Pt>>::empty()
        }
    }
}

/// The first candidate set, in trial order, whose filtered fragments are
/// not empty; empty if every set filters to nothing.
pub open spec fn chosen_frags(pg: Polygon, cfg: Config, cands: Seq<Seq<Seq<Pt>>>, k: int) -> Seq<
    Seq<Pt>,
>
    decreases cands.len() - k,
{
    if k < 0 || k >= cands.len() {
        Seq::empty()
    } else {
        let f = filter_frags(pg, cfg, cands[k], cands[k].len() as int);
        if f.len() > 0 {
            f
        } else {
            chosen_frags(pg, cfg, cands, k + 1)
        }
    }
}

/// The longest fragment's arc length among the first `i`.
pub open spec fn max_frag_len(ls: Seq<Seq<Pt>>, i: int) -> int
    decreases i,
{
    if i <= 0 {
        0
    } else {
        let m = max_frag_len(ls, i - 1);
        let l = polyline_len_spec(ls[i - 1]);
        if l > m {
            l
        } else {
            m
        }
    }
}

/// Whether the short-fragment pruning keeps fragment `i`: its length is at
/// least the threshold share (in ppm) of the longest fragment's length.
pub open spec fn keep_frag(ls: Seq<Seq<Pt>>, thr: Option<u32>, i: int) -> bool {
    match thr {
        Option::Some(t) => polyline_len_spec(ls[i]) * 1_000_000 >= (t as int) * max_frag_len(
            ls,
            ls.len() as int,
        ),
        Option::None => true,
    }
}

/// The fragments among the first `i` that survive pruning.
pub open spec fn prune_short(ls: Seq<Seq<Pt>>, thr: Option<u32>, i: int) -> Seq<Seq<Pt>>
    decreases i,
{
    if i <= 0 {
        Seq::empty()
    } else {
        prune_short(ls, thr, i - 1) + if keep_frag(ls, thr, i - 1) {
            seq![ls[i - 1]]
        } else {
            Seq::<Seq<Pt>>::empty()
        }
    }
}

/// What joining promises of its output: the input carried through joining
/// rounds alone (so the output holds exactly the input's fragments, merged
/// along shared endpoints, no coordinate invented), well formed, with no
/// two fragments sharing an endpoint, the input itself when it was already
/// so, and never more fragments than it was given.
pub open spec fn join_done(a: Seq<Seq<Pt>>, b: Seq<Seq<Pt>>) -> bool {
    &&& joined_from(a, b)
    &&& frags_wf(b)
    &&& !joinable(b)
    &&& (!joinable(a) ==> b == a)
    &&& b.len() <= a.len()
    &&& (a.len() >= 1 ==> b.len() >= 1)
}

/// How the skeleton list relates to the candidate sets: the first candidate
/// set that survives filtering is joined (when enabled) and pruned of short
/// fragments.
pub open spec fn skeletonize_rel(
    pg: Polygon,
    cfg: Config,
    cands: Seq<Seq<Seq<Pt>>>,
    out: Seq<Seq<Pt>>,
) -> bool {
    let f = chosen_frags(pg, cfg, cands, 0);
    if f.len() == 0 {
        out == Seq::<Seq<Pt>>::empty()
    } else if cfg.join_skeletons {
        exists|j: Seq<Seq<Pt>>|
            #[trigger] join_done(f, j) && out == prune_short(
                j,
                cfg.remove_short_skeletons,
                j.len() as int,
            )
    } else {
        out == prune_short(f, cfg.remove_short_skeletons, f.len() as int)
    }
}

/// The views of a list of candidate sets.
pub open spec fn cand_views(cs: Seq<Vec<Polyline>>) -> Seq<Seq<Seq<Pt>>> {
    cs.map_values(|v: Vec<Polyline>| views(v@))
}

/// Every fragment the filters keep passed them.
proof fn lemma_filter_frags_ok(pg: Polygon, cfg: Config, cand: Seq<Seq<Pt>>, i: int)
    requires
        0 <= i <= cand.len(),
    ensures
        forall|m: int| 0 <= m < filter_frags(pg, cfg, cand, i).len() ==> frag_ok(
            pg,
            cfg,
            #[trigger] filter_frags(pg, cfg, cand, i)[m],
        ),
    decreases i,
{
    if i > 0 {
        lemma_filter_frags_ok(pg, cfg, cand, i - 1);
        let prev = filter_frags(pg, cfg, cand, i - 1);
        let cur = filter_frags(pg, cfg, cand, i);
        assert forall|m: int| 0 <= m < cur.len() implies frag_ok(pg, cfg, #[trigger] cur[m]) by {
            if m < prev.len() {
                assert(cur[m] == prev[m]);
            } else {
                assert(cur[m] == cand[i - 1]);
            }
        }
    }
}

/// The chosen candidate set's fragments passed the filters and are well
/// formed.
proof fn lemma_chosen_frags_props(pg: Polygon, cfg: Config, cands: Seq<Seq<Seq<Pt>>>, k: int)
    requires
        0 <= k,
        forall|m: int| 0 <= m < cands.len() ==> frags_wf(#[trigger] cands[m]),
    ensures
        forall|m: int| 0 <= m < chosen_frags(pg, cfg, cands, k).len() ==> frag_ok(
            pg,
            cfg,
            #[trigger] chosen_frags(pg, cfg, cands, k)[m],
        ),
        forall|m: int| 0 <= m < chosen_frags(pg, cfg, cands, k).len() ==> polyline_wf(
            #[trigger] chosen_frags(pg, cfg, cands, k)[m],
        ),
    decreases cands.len() - k,
{
    if 0 <= k && k < cands.len() {
        let f = filter_frags(pg, cfg, cands[k], cands[k].len() as int);
        if f.len() > 0 {
            assert(chosen_frags(pg, cfg, cands, k) == f);
            lemma_filter_frags_ok(pg, cfg, cands[k], cands[k].len() as int);
            lemma_filter_frags_props(pg, cfg, cands[k], cands[k].len() as int);
            assert forall|m: int| 0 <= m < f.len() implies polyline_wf(#[trigger] f[m]) by {
                let j = choose|j: int| 0 <= j < cands[k].len() && f[m] == cands[k][j];
                assert(frags_wf(cands[k]));
                assert(polyline_wf(cands[k][j]));
            }
        } else {
            lemma_chosen_frags_props(pg, cfg, cands, k + 1);
            assert(chosen_frags(pg, cfg, cands, k) == chosen_frags(pg, cfg, cands, k + 1));
        }
    }
}

/// Containment-filter law: with the outside filter on, every point of
/// every computed skeleton lies within the polygon's surface. Joining
/// only concatenates the filtered fragments' points and pruning only
/// discards fragments, so the filter carries through both.
pub proof fn lemma_skeletons_inside(
    pg: Polygon,
    cfg: Config,
    cands: Seq<Seq<Seq<Pt>>>,
    out: Seq<Seq<Pt>>,
)
    requires
        skeletonize_rel(pg, cfg, cands, out),
        cfg.filter_skeletons_outside,
        forall|m: int| 0 <= m < cands.len() ==> frags_wf(#[trigger] cands[m]),
    ensures
        forall|j: int, x: int|
            #![trigger out[j][x]]
            0 <= j < out.len() && 0 <= x < out[j].len() ==> pt_in_polygon(pg, out[j][x]),
{
    let f = chosen_frags(pg, cfg, cands, 0);
    if f.len() == 0 {
    } else {
        lemma_chosen_frags_props(pg, cfg, cands, 0);
        assert forall|i: int| 0 <= i < f.len() implies (#[trigger] f[i]).len() >= 1 by {
            assert(polyline_wf(f[i]));
        }
        if cfg.join_skeletons {
            let j = choose|j: Seq<Seq<Pt>>|
                #[trigger] join_done(f, j) && out == prune_short(
                    j,
                    cfg.remove_short_skeletons,
                    j.len() as int,
                );
            lemma_joined_from_pts(f, j);
            lemma_prune_props(j, cfg.remove_short_skeletons, j.len() as int);
            assert forall|m: int, x: int|
                #![trigger out[m][x]]
                0 <= m < out.len() && 0 <= x < out[m].len() implies pt_in_polygon(
                pg,
                out[m][x],
            ) by {
                let jj = choose|jj: int| 0 <= jj < j.len() && out[m] == j[jj];
                assert(pt_of(f, j[jj][x]));
                let (fi, fy) = choose|fi: int, fy: int|
                    #![trigger f[fi][fy]]
                    0 <= fi < f.len() && 0 <= fy < f[fi].len() && f[fi][fy] == j[jj][x];
                assert(frag_ok(pg, cfg, f[fi]));
                assert(line_inside(pg, f[fi]));
                assert(pt_in_polygon(pg, f[fi][fy]));
            }
        } else {
            lemma_prune_props(f, cfg.remove_short_skeletons, f.len() as int);
            assert forall|m: int, x: int|
                #![trigger out[m][x]]
                0 <= m < out.len() && 0 <= x < out[m].len() implies pt_in_polygon(
                pg,
                out[m][x],
            ) by {
                let fi = choose|fi: int| 0 <= fi < f.len() && out[m] == f[fi];
                assert(frag_ok(pg, cfg, f[fi]));
                assert(line_inside(pg, f[fi]));
                assert(pt_in_polygon(pg, f[fi][x]));
            }
        }
    }
}

/// Boundary-distance law: every fragment the filters keep has both
/// endpoints clear of every boundary ring by the configured distance.
pub proof fn lemma_chosen_clear_of_boundary(
    pg: Polygon,
    cfg: Config,
    cands: Seq<Seq<Seq<Pt>>>,
    t: u64,
)
    requires
        cfg.filter_skeletons_near_boundary == Option::<u64>::Some(t),
        forall|m: int| 0 <= m < cands.len() ==> frags_wf(#[trigger] cands[m]),
    ensures
        forall|m: int| 0 <= m < chosen_frags(pg, cfg, cands, 0).len() ==> !endpoint_near_boundary(
            pg,
            #[trigger] chosen_frags(pg, cfg, cands, 0)[m],
            t,
        ),
{
    lemma_chosen_frags_props(pg, cfg, cands, 0);
    let f = chosen_frags(pg, cfg, cands, 0);
    assert forall|m: int| 0 <= m < f.len() implies !endpoint_near_boundary(
        pg,
        #[trigger] f[m],
        t,
    ) by {
        assert(frag_ok(pg, cfg, f[m]));
    }
}

/// An index filter of a well-formed working set is well formed.
proof fn lemma_subset_wf(ls: Seq<Seq<Pt>>, sub: Seq<Seq<Pt>>)
    requires
        frags_wf(ls),
        forall|m: int| 0 <= m < sub.len() ==> exists|j: int|
            0 <= j < ls.len() && #[trigger] sub[m] == ls[j],
        pts_total(sub) <= pts_total(ls),
    ensures
        frags_wf(sub),
{
    assert forall|m: int| 0 <= m < sub.len() implies polyline_wf(#[trigger] sub[m]) by {
        let j = choose|j: int| 0 <= j < ls.len() && sub[m] == ls[j];
    }
}

/// Filtering keeps the total point count and each element's origin.
proof fn lemma_filter_frags_props(pg: Polygon, cfg: Config, cand: Seq<Seq<Pt>>, i: int)
    requires
        0 <= i <= cand.len(),
    ensures
        pts_total(filter_frags(pg, cfg, cand, i)) <= pts_total_to(cand, i),
        forall|m: int| 0 <= m < filter_frags(pg, cfg, cand, i).len() ==> exists|j: int|
            0 <= j < cand.len() && #[trigger] filter_frags(pg, cfg, cand, i)[m] == cand[j],
    decreases i,
{
    if i > 0 {
        lemma_filter_frags_props(pg, cfg, cand, i - 1);
        let prev = filter_frags(pg, cfg, cand, i - 1);
        let cur = filter_frags(pg, cfg, cand, i);
        if frag_ok(pg, cfg, cand[i - 1]) {
            assert(cur =~= prev.push(cand[i - 1]));
            crate::join_lines::lemma_pts_total_push(prev, cand[i - 1]);
            assert forall|m: int| 0 <= m < cur.len() implies exists|j: int|
                0 <= j < cand.len() && #[trigger] cur[m] == cand[j] by {
                if m < prev.len() {
                    assert(cur[m] == prev[m]);
                } else {
                    assert(cur[m] == cand[i - 1]);
                }
            }
        } else {
            assert(cur =~= prev);
        }
    }
}

/// Pruning keeps the total point count and each element's origin.
proof fn lemma_prune_props(ls: Seq<Seq<Pt>>, thr: Option<u32>, i: int)
    requires
        0 <= i <= ls.len(),
    ensures
        pts_total(prune_short(ls, thr, i)) <= pts_total_to(ls, i),
        forall|m: int| 0 <= m < prune_short(ls, thr, i).len() ==> exists|j: int|
            0 <= j < ls.len() && #[trigger] prune_short(ls, thr, i)[m] == ls[j],
    decreases i,
{
    if i > 0 {
        lemma_prune_props(ls, thr, i - 1);
        let prev = prune_short(ls, thr, i - 1);
        let cur = prune_short(ls, thr, i);
        if keep_frag(ls, thr, i - 1) {
            assert(cur =~= prev.push(ls[i - 1]));
            crate::join_lines::lemma_pts_total_push(prev, ls[i - 1]);
            assert forall|m: int| 0 <= m < cur.len() implies exists|j: int|
                0 <= j < ls.len() && #[trigger] cur[m] == ls[j] by {
                if m < prev.len() {
                    assert(cur[m] == prev[m]);
                } else {
                    assert(cur[m] == ls[i - 1]);
                }
            }
        } else {
            assert(cur =~= prev);
        }
    }
}

/// Whether one fragment survives the filters, computed exactly.
fn frag_ok_exec(pg: &Polygon, cfg: &Config, line: &Polyline) -> (r: bool)
    requires
        polygon_wf(*pg),
        cfg.wf(),
        polyline_wf(line@),
    ensures
        r == frag_ok(*pg, *cfg, line@),
{
    if cfg.filter_skeletons_outside {
        let mut i: usize = 0;
        while i < line.pts.len()
            invariant
                0 <= i <= line@.len(),
                polygon_wf(*pg),
                polyline_wf(line@),
                cfg.filter_skeletons_outside,
                forall|m: int| 0 <= m < i ==> pt_in_polygon(*pg, #[trigger] line@[m]),
            decreases line@.len() - i,
        {
            if !pt_in_polygon_exec(pg, line.pts[i]) {
                proof {
                    assert(!pt_in_polygon(*pg, line@[i as int]));
                    assert(!line_inside(*pg, line@));
                    assert(!frag_ok(*pg, *cfg, line@));
                }
                return false;
            }
            i += 1;
        }
    }
    if let Option::Some(t) = cfg.filter_skeletons_near_boundary {
        if pt_near_boundary_exec(pg, line.pts[0], t) {
            return false;
        }
        if pt_near_boundary_exec(pg, line.pts[line.pts.len() - 1], t) {
            return false;
        }
    }
    true
}

/// Filter one candidate set.
fn filter_cand_exec(pg: &Polygon, cfg: &Config, cand: &Vec<Polyline>) -> (r: Vec<Polyline>)
    requires
        polygon_wf(*pg),
        cfg.wf(),
        frags_wf(views(cand@)),
    ensures
        views(r@) == filter_frags(*pg, *cfg, views(cand@), cand@.len() as int),
        frags_wf(views(r@)),
{
    let ghost cv = views(cand@);
    let mut out: Vec<Polyline> = Vec::new();
    let mut i: usize = 0;
    proof {
        assert(views(out@) =~= filter_frags(*pg, *cfg, cv, 0));
    }
    while i < cand.len()
        invariant
            0 <= i <= cand@.len(),
            polygon_wf(*pg),
            cfg.wf(),
            frags_wf(cv),
            cv == views(cand@),
            views(out@) == filter_frags(*pg, *cfg, cv, i as int),
        decreases cand@.len() - i,
    {
        proof {
            assert(cv[i as int] == cand@[i as int]@);
            assert(polyline_wf(cv[i as int]));
        }
        if frag_ok_exec(pg, cfg, &cand[i]) {
            out.push(cand[i].clone());
            proof {
                assert(views(out@) =~= filter_frags(*pg, *cfg, cv, i as int + 1));
            }
        } else {
            proof {
                assert(views(out@) =~= filter_frags(*pg, *cfg, cv, i as int + 1));
            }
        }
        i += 1;
    }
    proof {
        lemma_filter_frags_props(*pg, *cfg, cv, cv.len() as int);
        lemma_subset_wf(cv, views(out@));
    }
    out
}

/// Prune fragments shorter than the threshold share of the longest.
fn prune_short_exec(lines: Vec<Polyline>, thr: Option<u32>) -> (r: Vec<Polyline>)
    requires
        frags_wf(views(lines@)),
        thr matches Option::Some(t) ==> t <= 1_000_000,
    ensures
        views(r@) == prune_short(views(lines@), thr, lines@.len() as int),
        frags_wf(views(r@)),
{
    let ghost ls = views(lines@);
    let t = match thr {
        Option::Some(t) => t,
        Option::None => {
            proof {
                lemma_prune_none_id(ls, ls.len() as int);
                assert(views(lines@) =~= prune_short(ls, thr, lines@.len() as int));
            }
            return lines;
        },
    };
    // Longest fragment first.
    let mut longest: u64 = 0;
    let mut i: usize = 0;
    while i < lines.len()
        invariant
            0 <= i <= lines@.len(),
            frags_wf(ls),
            ls == views(lines@),
            longest == max_frag_len(ls, i as int),
        decreases lines@.len() - i,
    {
        proof {
            assert(ls[i as int] == lines@[i as int]@);
            assert(polyline_wf(ls[i as int]));
            crate::join_lines::lemma_pts_bounded_widen(ls[i as int], COORD_LIMIT, EXT_LIMIT);
        }
        let l = polyline_len(&lines[i]);
        if l > longest {
            longest = l;
        }
        i += 1;
    }
    let mut out: Vec<Polyline> = Vec::new();
    let mut i: usize = 0;
    proof {
        assert(views(out@) =~= prune_short(ls, thr, 0));
    }
    while i < lines.len()
        invariant
            0 <= i <= lines@.len(),
            frags_wf(ls),
            ls == views(lines@),
            longest == max_frag_len(ls, ls.len() as int),
            thr == Option::Some(t),
            t <= 1_000_000,
            views(out@) == prune_short(ls, thr, i as int),
        decreases lines@.len() - i,
    {
        proof {
            assert(ls[i as int] == lines@[i as int]@);
            assert(polyline_wf(ls[i as int]));
            crate::join_lines::lemma_pts_bounded_widen(ls[i as int], COORD_LIMIT, EXT_LIMIT);
        }
        let l = polyline_len(&lines[i]);
        proof {
            lemma_max_frag_len_bound(ls, ls.len() as int);
            assert((l as int) * 1_000_000 <= 0x1_0000_0000_0000 * 1_000_000int) by (nonlinear_arith)
                requires 0 <= l as int <= 0x1_0000_0000_0000int,
            ;
            assert((t as int) * (longest as int) <= 1_000_000 * 0x1_0000_0000_0000int)
                by (nonlinear_arith)
                requires 0 <= t as int <= 1_000_000, 0 <= longest as int <= 0x1_0000_0000_0000int,
            ;
        }
        if (l as u128) * 1_000_000u128 >= (t as u128) * (longest as u128) {
            out.push(lines[i].clone());
            proof {
                assert(keep_frag(ls, thr, i as int));
                assert(views(out@) =~= prune_short(ls, thr, i as int + 1));
            }
        } else {
            proof {
                assert(!keep_frag(ls, thr, i as int));
                assert(views(out@) =~= prune_short(ls, thr, i as int + 1));
            }
        }
        i += 1;
    }
    proof {
        lemma_prune_props(ls, thr, ls.len() as int);
        lemma_subset_wf(ls, views(out@));
    }
    out
}

/// Without a threshold, pruning keeps everything.
proof fn lemma_prune_none_id(ls: Seq<Seq<Pt>>, i: int)
    requires
        0 <= i <= ls.len(),
    ensures
        prune_short(ls, Option::None, i) == ls.subrange(0, i),
    decreases i,
{
    if i > 0 {
        lemma_prune_none_id(ls, i - 1);
        assert(prune_short(ls, Option::None, i) =~= ls.subrange(0, i));
    } else {
        assert(prune_short(ls, Option::None, 0) =~= ls.subrange(0, 0));
    }
}

/// The longest fragment of a well-formed set fits the per-fragment bound.
proof fn lemma_max_frag_len_bound(ls: Seq<Seq<Pt>>, i: int)
    requires
        frags_wf(ls),
        0 <= i <= ls.len(),
    ensures
        0 <= max_frag_len(ls, i) <= FRAG_LEN_MAX,
    decreases i,
{
    if i > 0 {
        lemma_max_frag_len_bound(ls, i - 1);
        crate::join_lines::lemma_polyline_len_spec_bound(ls[i - 1]);
    }
}

/// One width measurement: the sample, the clipped probe, the width it
/// measured (mm), and the sample's arc-length offset (mm).
pub type Meas = (Sample, Segment, u64, u64);

/// Grid length of a sample's direction vector.
pub open spec fn dir_len(smp: Sample) -> int {
    sqrt_floor((sq(smp.dx as int) + sq(smp.dy as int)) as nat) as int
}

/// Perpendicular offset of magnitude about `d`: the direction vector turned
/// a quarter turn, scaled to length `d` with truncating division.
pub open spec fn perp_dx(smp: Sample, d: int) -> int {
    tdiv(d * (-(smp.dy as int)), dir_len(smp))
}

pub open spec fn perp_dy(smp: Sample, d: int) -> int {
    tdiv(d * (smp.dx as int), dir_len(smp))
}

/// The probe's two far ends, one on each side of the sample point.
pub open spec fn probe_a(smp: Sample) -> Pt {
    Pt {
        x: (smp.pt.x + perp_dx(smp, PROJECT_AWAY as int)) as i64,
        y: (smp.pt.y + perp_dy(smp, PROJECT_AWAY as int)) as i64,
    }
}

pub open spec fn probe_b(smp: Sample) -> Pt {
    Pt {
        x: (smp.pt.x - perp_dx(smp, PROJECT_AWAY as int)) as i64,
        y: (smp.pt.y - perp_dy(smp, PROJECT_AWAY as int)) as i64,
    }
}

/// One sample's measurement: nothing for a degenerate direction, a clip
/// failure, or a zero width; otherwise the clipped probe and its length.
pub open spec fn measure_one(pg: Polygon, ratio: Option<u32>, smp: Sample) -> Option<
    (Segment, u64),
> {
    if dir_len(smp) == 0 {
        Option::None
    } else {
        match clip_spec(pg, smp.pt, probe_a(smp), probe_b(smp), ratio) {
            Option::None => Option::None,
            Option::Some(seg) => if seg_len_spec(seg.a, seg.b) == 0 {
                Option::None
            } else {
                Option::Some((seg, seg_len_spec(seg.a, seg.b) as u64))
            },
        }
    }
}

/// The measurements of the first `k` samples along one skeleton.
pub open spec fn measures_to(
    pg: Polygon,
    ratio: Option<u32>,
    s: Seq<Pt>,
    d: int,
    k: int,
) -> Seq<Meas>
    decreases k,
{
    if k <= 0 {
        Seq::empty()
    } else {
        measures_to(pg, ratio, s, d, k - 1) + ({
            let smp = sample_on(s, (k - 1) * d);
            match measure_one(pg, ratio, smp) {
                Option::Some(sw) => seq![(smp, sw.0, sw.1, ((k - 1) * d) as u64)],
                Option::None => Seq::<Meas>::empty(),
            }
        })
    }
}

/// All measurements along one skeleton, at offsets `0, d, 2d, ...`.
pub open spec fn skel_measures(pg: Polygon, ratio: Option<u32>, s: Seq<Pt>, d: int) -> Seq<Meas> {
    measures_to(pg, ratio, s, d, num_samples(polyline_len_spec(s), d))
}

/// The closed ring of the thickened quadrilateral between two consecutive
/// measurements: each sample point pushed half its width to both sides.
pub open spec fn quad_ring(m1: Meas, m2: Meas) -> Seq<Pt> {
    let h1 = (m1.2 / 2) as int;
    let h2 = (m2.2 / 2) as int;
    let c1a = Pt {
        x: (m1.0.pt.x + perp_dx(m1.0, h1)) as i64,
        y: (m1.0.pt.y + perp_dy(m1.0, h1)) as i64,
    };
    let c1b = Pt {
        x: (m1.0.pt.x - perp_dx(m1.0, h1)) as i64,
        y: (m1.0.pt.y - perp_dy(m1.0, h1)) as i64,
    };
    let c2b = Pt {
        x: (m2.0.pt.x - perp_dx(m2.0, h2)) as i64,
        y: (m2.0.pt.y - perp_dy(m2.0, h2)) as i64,
    };
    let c2a = Pt {
        x: (m2.0.pt.x + perp_dx(m2.0, h2)) as i64,
        y: (m2.0.pt.y + perp_dy(m2.0, h2)) as i64,
    };
    seq![c1a, c1b, c2b, c2a, c1a]
}

/// The quadrilaterals between the first `k` measurements, each tagged with
/// its two end widths.
pub open spec fn quads_to(ms: Seq<Meas>, k: int) -> Seq<(Seq<Pt>, u64, u64)>
    decreases k,
{
    if k <= 1 {
        Seq::empty()
    } else {
        quads_to(ms, k - 1) + seq![(quad_ring(ms[k - 2], ms[k - 1]), ms[k - 2].2, ms[k - 1].2)]
    }
}

/// The clipped probe segments of a measurement list.
pub open spec fn segs_of(ms: Seq<Meas>) -> Seq<Segment> {
    ms.map_values(|m: Meas| m.1)
}

/// The (offset, width) pairs of a measurement list, for segmentation.
pub open spec fn ow_of(ms: Seq<Meas>) -> Seq<(u64, u64)> {
    ms.map_values(|m: Meas| (m.3, m.2))
}

/// Probe segments of the first `i` skeletons, concatenated.
pub open spec fn perps_concat(
    pg: Polygon,
    ratio: Option<u32>,
    skels: Seq<Seq<Pt>>,
    d: int,
    i: int,
) -> Seq<Segment>
    decreases i,
{
    if i <= 0 {
        Seq::empty()
    } else {
        perps_concat(pg, ratio, skels, d, i - 1) + segs_of(
            skel_measures(pg, ratio, skels[i - 1], d),
        )
    }
}

/// Thickened quadrilaterals of the first `i` skeletons; a skeleton with
/// fewer than two measurements contributes none.
pub open spec fn thick_concat(
    pg: Polygon,
    ratio: Option<u32>,
    skels: Seq<Seq<Pt>>,
    d: int,
    i: int,
) -> Seq<(Seq<Pt>, u64, u64)>
    decreases i,
{
    if i <= 0 {
        Seq::empty()
    } else {
        thick_concat(pg, ratio, skels, d, i - 1) + ({
            let ms = skel_measures(pg, ratio, skels[i - 1], d);
            if ms.len() >= 2 {
                quads_to(ms, ms.len() as int)
            } else {
                Seq::<(Seq<Pt>, u64, u64)>::empty()
            }
        })
    }
}

/// Width-tagged centerline pieces of the first `i` skeletons.
pub open spec fn center_concat(
    pg: Polygon,
    ratio: Option<u32>,
    skels: Seq<Seq<Pt>>,
    d: int,
    g: u64,
    i: int,
) -> Seq<(Seq<Pt>, u64, u64)>
    decreases i,
{
    if i <= 0 {
        Seq::empty()
    } else {
        center_concat(pg, ratio, skels, d, g, i - 1) + ({
            let ms = skel_measures(pg, ratio, skels[i - 1], d);
            if ms.len() >= 2 {
                split_spec(skels[i - 1], ow_of(ms), g, 0)
            } else {
                Seq::<(Seq<Pt>, u64, u64)>::empty()
            }
        })
    }
}

/// The views of thickened strips: the quadrilateral's ring plus end widths.
pub open spec fn thick_views(v: Seq<(Polygon, u64, u64)>) -> Seq<(Seq<Pt>, u64, u64)> {
    v.map_values(|t: (Polygon, u64, u64)| (t.0.exterior@, t.1, t.2))
}

/// A direction's grid length dominates each of its components.
proof fn lemma_dir_len_ge(smp: Sample)
    ensures
        dir_len(smp) >= abs_i(smp.dx as int),
        dir_len(smp) >= abs_i(smp.dy as int),
        dir_len(smp) >= 0,
{
    let dx = smp.dx as int;
    let dy = smp.dy as int;
    let n = (sq(dx) + sq(dy)) as nat;
    crate::geom::lemma_sq_nonneg(dx);
    crate::geom::lemma_sq_nonneg(dy);
    assert(sq(dx) == (abs_i(dx)) * (abs_i(dx)) && sq(dy) == (abs_i(dy)) * (abs_i(dy)))
        by (nonlinear_arith);
    crate::geom::lemma_sqrt_floor_monotone((sq(dx)) as nat, n);
    crate::geom::lemma_sqrt_floor_monotone((sq(dy)) as nat, n);
    assert((abs_i(dx) as nat) * (abs_i(dx) as nat) <= (sq(dx)) as nat && ((sq(dx)) as nat) < ((
    abs_i(dx) as nat) + 1) * ((abs_i(dx) as nat) + 1)) by (nonlinear_arith)
        requires sq(dx) == (abs_i(dx)) * (abs_i(dx)), abs_i(dx) >= 0,
    ;
    lemma_sqrt_floor_unique((sq(dx)) as nat, abs_i(dx) as nat);
    assert((abs_i(dy) as nat) * (abs_i(dy) as nat) <= (sq(dy)) as nat && ((sq(dy)) as nat) < ((
    abs_i(dy) as nat) + 1) * ((abs_i(dy) as nat) + 1)) by (nonlinear_arith)
        requires sq(dy) == (abs_i(dy)) * (abs_i(dy)), abs_i(dy) >= 0,
    ;
    lemma_sqrt_floor_unique((sq(dy)) as nat, abs_i(dy) as nat);
    lemma_sqrt_floor_bounds(n);
}

/// The perpendicular offset never exceeds the requested magnitude.
proof fn lemma_perp_offset_mag(smp: Sample, d: int)
    requires
        0 <= d,
        dir_len(smp) >= 1,
    ensures
        -d <= perp_dx(smp, d) <= d,
        -d <= perp_dy(smp, d) <= d,
{
    let l = dir_len(smp);
    lemma_dir_len_ge(smp);
    assert(abs_i(d * (-(smp.dy as int))) <= d * l) by (nonlinear_arith)
        requires 0 <= d, abs_i(smp.dy as int) <= l,
    ;
    assert(abs_i(d * (smp.dx as int)) <= d * l) by (nonlinear_arith)
        requires 0 <= d, abs_i(smp.dx as int) <= l,
    ;
    lemma_tdiv_mag(d * (-(smp.dy as int)), l, d);
    lemma_tdiv_mag(d * (smp.dx as int), l, d);
}

/// A sample index below the sample count sits strictly inside the chain.
proof fn lemma_sample_off_bound(len: int, d: int, k: int)
    requires
        1 <= d,
        0 <= k < num_samples(len, d),
    ensures
        k * d <= len - 1,
        k * d >= 0,
    decreases k,
{
    assert(k * d >= 0) by (nonlinear_arith)
        requires k >= 0, d >= 1,
    ;
    let q = (len - 1) / d;
    vstd::arithmetic::div_mod::lemma_fundamental_div_mod(len - 1, d);
    vstd::arithmetic::div_mod::lemma_mod_bound(len - 1, d);
    assert(k <= q);
    assert(k * d <= q * d) by (nonlinear_arith)
        requires k <= q, d >= 1,
    ;
    assert(q * d <= len - 1) by (nonlinear_arith)
        requires len - 1 == d * q + (len - 1) % d, (len - 1) % d >= 0,
    ;
}

/// Measure the widths along one skeleton: sample, cast a perpendicular
/// probe at each sample, clip it against the polygon, and keep the samples
/// whose clip succeeds with a positive width.
fn measure_skeleton(pg: &Polygon, ratio: Option<u32>, skel: &Polyline, d: u64) -> (r: Vec<Meas>)
    requires
        polygon_wf(*pg),
        polyline_wf(skel@),
        1 <= d,
        ratio matches Option::Some(t) ==> t <= 1_000_000,
    ensures
        r@ == skel_measures(*pg, ratio, skel@, d as int),
        forall|m: int| 0 <= m < r@.len() ==> 0 < (#[trigger] r@[m]).2 <= crate::geom::SEG_LEN_MAX,
        forall|m: int| 0 <= m < r@.len() ==> in_bounds((#[trigger] r@[m]).0.pt, COORD_LIMIT),
        forall|m: int| 0 <= m < r@.len() ==> dir_len((#[trigger] r@[m]).0) >= 1,
        forall|m: int| 0 <= m < r@.len() ==> -2 * COORD_LIMIT <= (#[trigger] r@[m]).0.dx <= 2
            * COORD_LIMIT && -2 * COORD_LIMIT <= r@[m].0.dy <= 2 * COORD_LIMIT,
        forall|m: int| 0 <= m < r@.len() ==> seg_len_spec((#[trigger] r@[m]).1.a, r@[m].1.b) > 0,
{
    let ghost s = skel@;
    let samples = step_along_line(skel, d);
    let ghost ns = num_samples(polyline_len_spec(s), d as int);
    proof {
        crate::join_lines::lemma_polyline_len_spec_bound(s);
    }
    let mut out: Vec<Meas> = Vec::new();
    let mut k: usize = 0;
    let mut off: u64 = 0;
    proof {
        assert(out@ =~= measures_to(*pg, ratio, s, d as int, 0));
    }
    while k < samples.len()
        invariant
            0 <= k <= samples@.len(),
            polygon_wf(*pg),
            polyline_wf(s),
            s == skel@,
            1 <= d,
            ratio matches Option::Some(t) ==> t <= 1_000_000,
            ns == num_samples(polyline_len_spec(s), d as int),
            samples@.len() == ns,
            0 <= polyline_len_spec(s) <= FRAG_LEN_MAX,
            forall|m: int| 0 <= m < samples@.len() ==> samples@[m] == sample_on(
                s,
                m * (d as int),
            ),
            k < samples@.len() ==> off == k * (d as int),
            out@ == measures_to(*pg, ratio, s, d as int, k as int),
            forall|m: int| 0 <= m < out@.len() ==> 0 < (#[trigger] out@[m]).2
                <= crate::geom::SEG_LEN_MAX,
            forall|m: int| 0 <= m < out@.len() ==> in_bounds(
                (#[trigger] out@[m]).0.pt,
                COORD_LIMIT,
            ),
            forall|m: int| 0 <= m < out@.len() ==> dir_len((#[trigger] out@[m]).0) >= 1,
            forall|m: int| 0 <= m < out@.len() ==> -2 * COORD_LIMIT <= (#[trigger] out@[m]).0.dx
                <= 2 * COORD_LIMIT && -2 * COORD_LIMIT <= out@[m].0.dy <= 2 * COORD_LIMIT,
            forall|m: int| 0 <= m < out@.len() ==> seg_len_spec(
                (#[trigger] out@[m]).1.a,
                out@[m].1.b,
            ) > 0,
        decreases samples@.len() - k,
    {
        let smp = samples[k];
        proof {
            lemma_sample_off_bound(polyline_len_spec(s), d as int, k as int);
            lemma_sample_on_bounds(s, k as int * (d as int));
            assert(smp == sample_on(s, k as int * (d as int)));
        }
        let dx = smp.dx;
        let dy = smp.dy;
        proof {
            let c = COORD_LIMIT as int;
            assert((dx as int) * (dx as int) >= 0 && (dy as int) * (dy as int) >= 0 && (dx as int)
                * (dx as int) + (dy as int) * (dy as int) <= 8 * (c * c)) by (nonlinear_arith)
                requires -2 * c <= dx as int <= 2 * c, -2 * c <= dy as int <= 2 * c,
            ;
            assert(8 * ((COORD_LIMIT as int) * (COORD_LIMIT as int)) <= u64::MAX)
                by (nonlinear_arith)
                requires COORD_LIMIT == 0x4000_0000i64,
            ;
        }
        let d2: u64 = ((dx as i128) * (dx as i128) + (dy as i128) * (dy as i128)) as u64;
        let l = isqrt_u64(d2);
        proof {
            assert(l as int == dir_len(smp));
        }
        let ghost step_item = ({
            let smp0 = sample_on(s, k as int * (d as int));
            match measure_one(*pg, ratio, smp0) {
                Option::Some(sw) => seq![(smp0, sw.0, sw.1, ((k as int) * (d as int)) as u64)],
                Option::None => Seq::<Meas>::empty(),
            }
        });
        proof {
            assert(measures_to(*pg, ratio, s, d as int, k as int + 1) == measures_to(
                *pg,
                ratio,
                s,
                d as int,
                k as int,
            ) + step_item);
        }
        if l > 0 {
            proof {
                lemma_dir_len_ge(smp);
                lemma_perp_offset_mag(smp, PROJECT_AWAY as int);
            }
            let ox = tdiv_i128((PROJECT_AWAY as i128) * (-(dy as i128)), l as i128);
            let oy = tdiv_i128((PROJECT_AWAY as i128) * (dx as i128), l as i128);
            let pa = Pt { x: smp.pt.x + ox as i64, y: smp.pt.y + oy as i64 };
            let pb = Pt { x: smp.pt.x - ox as i64, y: smp.pt.y - oy as i64 };
            proof {
                assert(pa == probe_a(smp) && pb == probe_b(smp));
                assert(in_bounds(pa, EXT_LIMIT) && in_bounds(pb, EXT_LIMIT));
                lemma_pt_widen(smp.pt, smp.pt);
            }
            match clip_line_to_polygon(pg, smp.pt, Segment { a: pa, b: pb }, ratio) {
                Option::Some(seg) => {
                    let w = seg_len(seg.a, seg.b);
                    if w > 0 {
                        out.push((smp, seg, w, off));
                        proof {
                            assert(step_item =~= seq![(smp, seg, w, off)]);
                            assert(out@ =~= measures_to(*pg, ratio, s, d as int, k as int)
                                + step_item);
                        }
                    } else {
                        proof {
                            assert(step_item =~= Seq::<Meas>::empty());
                            assert(out@ =~= measures_to(*pg, ratio, s, d as int, k as int + 1));
                        }
                    }
                },
                Option::None => {
                    proof {
                        assert(step_item =~= Seq::<Meas>::empty());
                        assert(out@ =~= measures_to(*pg, ratio, s, d as int, k as int + 1));
                    }
                },
            }
        } else {
            proof {
                assert(step_item =~= Seq::<Meas>::empty());
                assert(out@ =~= measures_to(*pg, ratio, s, d as int, k as int + 1));
            }
        }
        k += 1;
        if k < samples.len() {
            proof {
                lemma_sample_off_bound(polyline_len_spec(s), d as int, k as int);
                assert((k as int) * (d as int) == (k as int - 1) * (d as int) + d)
                    by (nonlinear_arith);
            }
            off = off + d;
        }
    }
    out
}

/// Append the thickened quadrilaterals between consecutive measurements.
fn quads_exec(ms: &Vec<Meas>, out: &mut Vec<(Polygon, u64, u64)>)
    requires
        ms@.len() >= 2,
        forall|m: int| 0 <= m < ms@.len() ==> 0 < (#[trigger] ms@[m]).2
            <= crate::geom::SEG_LEN_MAX,
        forall|m: int| 0 <= m < ms@.len() ==> in_bounds((#[trigger] ms@[m]).0.pt, COORD_LIMIT),
        forall|m: int| 0 <= m < ms@.len() ==> dir_len((#[trigger] ms@[m]).0) >= 1,
        forall|m: int| 0 <= m < ms@.len() ==> -2 * COORD_LIMIT <= (#[trigger] ms@[m]).0.dx <= 2
            * COORD_LIMIT && -2 * COORD_LIMIT <= ms@[m].0.dy <= 2 * COORD_LIMIT,
    ensures
        thick_views(final(out)@) == thick_views(old(out)@) + quads_to(ms@, ms@.len() as int),
        forall|m: int| 0 <= m < old(out)@.len() ==> (#[trigger] final(out)@[m]) == old(out)@[m],
        forall|m: int| old(out)@.len() <= m < final(out)@.len() ==> ((#[trigger] final(out)@[m]).0.holes@.len() == 0 && final(out)@[m].1 > 0 && final(out)@[m].2 > 0),
{
    let ghost base = out@;
    let mut k: usize = 1;
    proof {
        assert(thick_views(out@) =~= thick_views(base) + quads_to(ms@, 1));
    }
    while k < ms.len()
        invariant
            1 <= k <= ms@.len(),
            ms@.len() >= 2,
            forall|m: int| 0 <= m < ms@.len() ==> 0 < (#[trigger] ms@[m]).2
                <= crate::geom::SEG_LEN_MAX,
            forall|m: int| 0 <= m < ms@.len() ==> in_bounds(
                (#[trigger] ms@[m]).0.pt,
                COORD_LIMIT,
            ),
            forall|m: int| 0 <= m < ms@.len() ==> dir_len((#[trigger] ms@[m]).0) >= 1,
            forall|m: int| 0 <= m < ms@.len() ==> -2 * COORD_LIMIT <= (#[trigger] ms@[m]).0.dx
                <= 2 * COORD_LIMIT && -2 * COORD_LIMIT <= ms@[m].0.dy <= 2 * COORD_LIMIT,
            thick_views(out@) == thick_views(base) + quads_to(ms@, k as int),
            out@.len() >= base.len(),
            forall|m: int| 0 <= m < base.len() ==> (#[trigger] out@[m]) == base[m],
            forall|m: int| base.len() <= m < out@.len() ==> (
            #[trigger] out@[m]).0.holes@.len() == 0 && out@[m].1 > 0 && out@[m].2 > 0,
        decreases ms@.len() - k,
    {
        let m1 = ms[k - 1];
        let m2 = ms[k];
        let c1 = quad_corners(m1);
        let c2 = quad_corners(m2);
        let mut ring: Vec<Pt> = Vec::new();
        ring.push(c1.0);
        ring.push(c1.1);
        ring.push(c2.1);
        ring.push(c2.0);
        ring.push(c1.0);
        proof {
            assert(ring@ =~= quad_ring(ms@[k - 1], ms@[k as int]));
        }
        let ghost prev = out@;
        let ghost ringv = ring@;
        out.push((Polygon { exterior: Polyline { pts: ring }, holes: Vec::new() }, m1.2, m2.2));
        proof {
            assert(thick_views(out@) =~= thick_views(prev).push((ringv, m1.2, m2.2)));
            assert(quads_to(ms@, k as int + 1) =~= quads_to(ms@, k as int).push(
                (quad_ring(ms@[k - 1], ms@[k as int]), ms@[k - 1].2, ms@[k as int].2),
            ));
            assert(thick_views(out@) =~= thick_views(base) + quads_to(ms@, k as int + 1));
        }
        k += 1;
    }
}

/// The two half-width corners at one measurement: the sample point pushed
/// half the measured width to each side.
fn quad_corners(m: Meas) -> (r: (Pt, Pt))
    requires
        0 < m.2 <= crate::geom::SEG_LEN_MAX,
        in_bounds(m.0.pt, COORD_LIMIT),
        dir_len(m.0) >= 1,
        -2 * COORD_LIMIT <= m.0.dx <= 2 * COORD_LIMIT,
        -2 * COORD_LIMIT <= m.0.dy <= 2 * COORD_LIMIT,
    ensures
        ({
            let h = (m.2 / 2) as int;
            r.0 == (Pt {
                x: (m.0.pt.x + perp_dx(m.0, h)) as i64,
                y: (m.0.pt.y + perp_dy(m.0, h)) as i64,
            }) && r.1 == (Pt {
                x: (m.0.pt.x - perp_dx(m.0, h)) as i64,
                y: (m.0.pt.y - perp_dy(m.0, h)) as i64,
            })
        }),
{
    let smp = m.0;
    let half = m.2 / 2;
    let dx = smp.dx;
    let dy = smp.dy;
    proof {
        lemma_dir_len_ge(smp);
        lemma_perp_offset_mag(smp, half as int);
        let c = COORD_LIMIT as int;
        assert(abs_i((half as int) * (-(dy as int))) <= 0x1_0000_0000int * (2 * c))
            by (nonlinear_arith)
            requires 0 <= half as int <= 0x1_0000_0000int, abs_i(dy as int) <= 2 * c,
        ;
        assert(abs_i((half as int) * (dx as int)) <= 0x1_0000_0000int * (2 * c))
            by (nonlinear_arith)
            requires 0 <= half as int <= 0x1_0000_0000int, abs_i(dx as int) <= 2 * c,
        ;
    }
    let ghost l = dir_len(smp);
    proof {
        let c = COORD_LIMIT as int;
        assert((dx as int) * (dx as int) >= 0 && (dy as int) * (dy as int) >= 0 && (dx as int) * (
        dx as int) + (dy as int) * (dy as int) <= 8 * (c * c)) by (nonlinear_arith)
            requires -2 * c <= dx as int <= 2 * c, -2 * c <= dy as int <= 2 * c,
        ;
        assert(8 * ((COORD_LIMIT as int) * (COORD_LIMIT as int)) <= u64::MAX) by (nonlinear_arith)
            requires COORD_LIMIT == 0x4000_0000i64,
        ;
    }
    let d2_arr: u64 = ((dx as i128) * (dx as i128) + (dy as i128) * (dy as i128)) as u64;
    let le = isqrt_u64(d2_arr);
    proof {
        assert(le as int == l);
    }
    let ox = tdiv_i128((half as i128) * (-(dy as i128)), le as i128);
    let oy = tdiv_i128((half as i128) * (dx as i128), le as i128);
    (
        Pt { x: smp.pt.x + ox as i64, y: smp.pt.y + oy as i64 },
        Pt { x: smp.pt.x - ox as i64, y: smp.pt.y - oy as i64 },
    )
}

/// The unit of work: one polygon and the collections its calculation
/// accumulates. Created from one input polygon, mutated in place by one
/// `calculate` pass, then consumed by the caller.
pub struct Pavement {
    /// The working polygon, after small-hole removal.
    pub polygon: Polygon,
    /// The centerline polylines.
    pub skeletons: Vec<Polyline>,
    /// The clipped perpendicular probes, one per accepted width sample.
    pub perp_lines: Vec<Segment>,
    /// Thickened centerline strips with the width at each end.
    pub thickened_lines: Vec<(Polygon, u64, u64)>,
    /// Centerline pieces with the minimum and maximum width along each.
    pub center_with_width: Vec<(Polyline, u64, u64)>,
}

impl Pavement {
    /// Build the unit of work for one polygon, dropping holes whose
    /// unsigned area falls below the configured threshold (small interior
    /// features that would fragment the skeleton).
    pub fn new(polygon: Polygon, cfg: &Config) -> (r: Pavement)
        requires
            polygon_wf(polygon),
        ensures
            r.polygon.exterior@ == polygon.exterior@,
            views(r.polygon.holes@) == kept_hole_views(
                views(polygon.holes@),
                cfg.remove_holes,
                polygon.holes@.len() as int,
            ),
            polygon_wf(r.polygon),
            cfg.remove_holes matches Option::Some(l) ==> forall|m: int|
                0 <= m < r.polygon.holes@.len() ==> ring_area2((#[trigger] r.polygon.holes@[m])@)
                    >= 2 * l,
            r.skeletons@.len() == 0,
            r.perp_lines@.len() == 0,
            r.thickened_lines@.len() == 0,
            r.center_with_width@.len() == 0,
    {
        let ghost hv = views(polygon.holes@);
        let mut holes: Vec<Polyline> = Vec::new();
        let mut i: usize = 0;
        proof {
            assert(views(holes@) =~= kept_hole_views(hv, cfg.remove_holes, 0));
        }
        while i < polygon.holes.len()
            invariant
                0 <= i <= polygon.holes@.len(),
                polygon_wf(polygon),
                hv == views(polygon.holes@),
                views(holes@) == kept_hole_views(hv, cfg.remove_holes, i as int),
                holes@.len() <= i,
            decreases polygon.holes@.len() - i,
        {
            proof {
                assert(hv[i as int] == polygon.holes@[i as int]@);
                assert(ring_wf(hv[i as int]));
            }
            let keep = match cfg.remove_holes {
                Option::Some(l) => {
                    let a2 = ring_area2_exec(&polygon.holes[i]);
                    a2 >= 2 * (l as u128)
                },
                Option::None => true,
            };
            if keep {
                holes.push(polygon.holes[i].clone());
                proof {
                    assert(views(holes@) =~= kept_hole_views(hv, cfg.remove_holes, i as int + 1));
                }
            } else {
                proof {
                    assert(views(holes@) =~= kept_hole_views(hv, cfg.remove_holes, i as int + 1));
                }
            }
            i += 1;
        }
        let out = Pavement {
            polygon: Polygon { exterior: polygon.exterior, holes },
            skeletons: Vec::new(),
            perp_lines: Vec::new(),
            thickened_lines: Vec::new(),
            center_with_width: Vec::new(),
        };
        proof {
            assert forall|m: int| 0 <= m < out.polygon.holes@.len() implies ring_wf(
                (#[trigger] out.polygon.holes@[m])@,
            ) by {
                assert(views(out.polygon.holes@)[m] == out.polygon.holes@[m]@);
                assert(views(out.polygon.holes@)[m] == kept_hole_views(
                    hv,
                    cfg.remove_holes,
                    polygon.holes@.len() as int,
                )[m]);
                lemma_kept_holes_from(hv, cfg.remove_holes, polygon.holes@.len() as int);
                let j = choose|j: int|
                    0 <= j < hv.len() && kept_hole_views(
                        hv,
                        cfg.remove_holes,
                        hv.len() as int,
                    )[m] == hv[j];
                assert(hv[j] == polygon.holes@[j]@);
            }
            if cfg.remove_holes is Some {
                lemma_kept_holes_area(hv, cfg.remove_holes, polygon.holes@.len() as int);
                assert forall|m: int| 0 <= m < out.polygon.holes@.len() implies ring_area2(
                    (#[trigger] out.polygon.holes@[m])@,
                ) >= 2 * (cfg.remove_holes->Some_0) by {
                    assert(out.polygon.holes@[m]@ == views(out.polygon.holes@)[m]);
                }
            }
        }
        out
    }

    /// One full calculation pass: skeleton selection from the candidate
    /// sets, then perpendicular width sampling, thickening and
    /// segmentation. `candidates` holds the straight-skeleton primitive's
    /// quantized output, one set per orientation convention, in trial
    /// order.
    ///
    /// A zero-width clip contributes neither a probe artifact nor a
    /// thickened strip: every probe kept has positive length and every
    /// thickened strip carries two positive widths.
    pub fn calculate(&mut self, cfg: &Config, candidates: Vec<Vec<Polyline>>)
        requires
            polygon_wf(old(self).polygon),
            cfg.wf(),
            forall|k: int| 0 <= k < candidates@.len() ==> frags_wf(
                views((#[trigger] candidates@[k])@),
            ),
        ensures
            final(self).polygon == old(self).polygon,
            skeletonize_rel(
                old(self).polygon,
                *cfg,
                cand_views(candidates@),
                views(final(self).skeletons@),
            ),
            cfg.make_perps_step_size is None ==> final(self).perp_lines@ == old(self).perp_lines@ && final(self).thickened_lines@ == old(self).thickened_lines@ && final(self).center_with_width@ == old(self).center_with_width@,
            cfg.make_perps_step_size matches Option::Some(d) ==> {
                &&& final(self).perp_lines@ == old(self).perp_lines@ + perps_concat(
                    old(self).polygon,
                    cfg.perp_midpoint_ratio,
                    views(final(self).skeletons@),
                    d as int,
                    final(self).skeletons@.len() as int,
                )
                &&& thick_views(final(self).thickened_lines@) == thick_views(
                    old(self).thickened_lines@,
                ) + thick_concat(
                    old(self).polygon,
                    cfg.perp_midpoint_ratio,
                    views(final(self).skeletons@),
                    d as int,
                    final(self).skeletons@.len() as int,
                )
                &&& pieces_view(final(self).center_with_width@) == pieces_view(
                    old(self).center_with_width@,
                ) + center_concat(
                    old(self).polygon,
                    cfg.perp_midpoint_ratio,
                    views(final(self).skeletons@),
                    d as int,
                    cfg.width_granularity,
                    final(self).skeletons@.len() as int,
                )
            },
            forall|m: int|
                old(self).thickened_lines@.len() <= m < final(self).thickened_lines@.len()
                    ==> (#[trigger] final(self).thickened_lines@[m]).1 > 0 && final(self).thickened_lines@[m].2 > 0 && final(self).thickened_lines@[m].0.holes@.len() == 0,
            forall|m: int|
                old(self).perp_lines@.len() <= m < final(self).perp_lines@.len() ==> seg_len_spec(
                    (#[trigger] final(self).perp_lines@[m]).a,
                    final(self).perp_lines@[m].b,
                ) > 0,
    {
        let skels = compute_skeletons(&self.polygon, cfg, candidates);
        self.skeletons = skels;
        let d = match cfg.make_perps_step_size {
            Option::None => {
                return;
            },
            Option::Some(d) => d,
        };
        let ratio = cfg.perp_midpoint_ratio;
        let g = cfg.width_granularity;
        let ghost pg = self.polygon;
        let ghost sv = views(self.skeletons@);
        let ghost perps0 = self.perp_lines@;
        let ghost thick0 = self.thickened_lines@;
        let ghost center0 = self.center_with_width@;
        let n = self.skeletons.len();
        let mut si: usize = 0;
        proof {
            assert(self.perp_lines@ =~= perps0 + perps_concat(pg, ratio, sv, d as int, 0));
            assert(thick_views(self.thickened_lines@) =~= thick_views(thick0) + thick_concat(
                pg,
                ratio,
                sv,
                d as int,
                0,
            ));
            assert(pieces_view(self.center_with_width@) =~= pieces_view(center0) + center_concat(
                pg,
                ratio,
                sv,
                d as int,
                g,
                0,
            ));
        }
        while si < n
            invariant
                0 <= si <= n,
                n == self.skeletons@.len(),
                polygon_wf(self.polygon),
                self.polygon == pg,
                cfg.wf(),
                cfg.make_perps_step_size == Option::Some(d),
                ratio == cfg.perp_midpoint_ratio,
                g == cfg.width_granularity,
                1 <= d,
                sv == views(self.skeletons@),
                frags_wf(sv),
                self.perp_lines@ == perps0 + perps_concat(pg, ratio, sv, d as int, si as int),
                thick_views(self.thickened_lines@) == thick_views(thick0) + thick_concat(
                    pg,
                    ratio,
                    sv,
                    d as int,
                    si as int,
                ),
                pieces_view(self.center_with_width@) == pieces_view(center0) + center_concat(
                    pg,
                    ratio,
                    sv,
                    d as int,
                    g,
                    si as int,
                ),
                forall|m: int| thick0.len() <= m < self.thickened_lines@.len() ==> (
                #[trigger] self.thickened_lines@[m]).1 > 0 && self.thickened_lines@[m].2 > 0
                    && self.thickened_lines@[m].0.holes@.len() == 0,
                forall|m: int| perps0.len() <= m < self.perp_lines@.len() ==> seg_len_spec(
                    (#[trigger] self.perp_lines@[m]).a,
                    self.perp_lines@[m].b,
                ) > 0,
            decreases n - si,
        {
            let ghost skels_at = self.skeletons@;
            let ghost thick_at = self.thickened_lines@;
            let ghost center_at = self.center_with_width@;
            proof {
                assert(sv[si as int] == self.skeletons@[si as int]@);
                assert(polyline_wf(sv[si as int]));
            }
            let ms = measure_skeleton(&self.polygon, ratio, &self.skeletons[si], d);
            let ghost msv = ms@;
            proof {
                assert(msv == skel_measures(pg, ratio, sv[si as int], d as int));
            }
            // Probe artifacts: one clipped segment per accepted sample.
            let ghost perps_before = self.perp_lines@;
            let mut q: usize = 0;
            proof {
                assert(self.perp_lines@ =~= perps_before + segs_of(msv.subrange(0, 0)));
            }
            while q < ms.len()
                invariant
                    0 <= q <= msv.len(),
                    msv == ms@,
                    self.polygon == pg,
                    self.skeletons@ == skels_at,
                    self.thickened_lines@ == thick_at,
                    self.center_with_width@ == center_at,
                    self.perp_lines@ == perps_before + segs_of(msv.subrange(0, q as int)),
                decreases msv.len() - q,
            {
                self.perp_lines.push(ms[q].1);
                proof {
                    assert(segs_of(msv.subrange(0, q as int + 1)) =~= segs_of(
                        msv.subrange(0, q as int),
                    ).push(msv[q as int].1));
                    assert(self.perp_lines@ =~= perps_before + segs_of(
                        msv.subrange(0, q as int + 1),
                    ));
                }
                q += 1;
            }
            proof {
                assert(msv.subrange(0, msv.len() as int) =~= msv);
                assert(self.perp_lines@ =~= perps0 + (perps_concat(
                    pg,
                    ratio,
                    sv,
                    d as int,
                    si as int,
                ) + segs_of(msv)));
                assert(self.perp_lines@ =~= perps0 + perps_concat(
                    pg,
                    ratio,
                    sv,
                    d as int,
                    si as int + 1,
                ));
                assert forall|m: int| perps0.len() <= m < self.perp_lines@.len()
                    implies seg_len_spec(
                    (#[trigger] self.perp_lines@[m]).a,
                    self.perp_lines@[m].b,
                ) > 0 by {
                    if m < perps_before.len() {
                        assert(self.perp_lines@[m] == perps_before[m]);
                    } else {
                        assert(self.perp_lines@[m] == segs_of(msv)[m - perps_before.len()]);
                        assert(segs_of(msv)[m - perps_before.len()] == msv[m
                            - perps_before.len()].1);
                    }
                }
            }
            let ghost perps_after = self.perp_lines@;
            if ms.len() >= 2 {
                quads_exec(&ms, &mut self.thickened_lines);
                proof {
                    assert(thick_views(self.thickened_lines@) =~= thick_views(thick0)
                        + thick_concat(pg, ratio, sv, d as int, si as int + 1));
                    assert forall|m: int| thick0.len() <= m < self.thickened_lines@.len()
                        implies (#[trigger] self.thickened_lines@[m]).1 > 0
                        && self.thickened_lines@[m].2 > 0
                        && self.thickened_lines@[m].0.holes@.len() == 0 by {
                        if m < thick_at.len() {
                            assert(self.thickened_lines@[m] == thick_at[m]);
                        }
                    }
                }
                let ghost thick_after = self.thickened_lines@;
                // Width segmentation of this skeleton's samples.
                let mut ow: Vec<(u64, u64)> = Vec::new();
                let mut q3: usize = 0;
                proof {
                    assert(ow@ =~= ow_of(msv.subrange(0, 0)));
                }
                while q3 < ms.len()
                    invariant
                        0 <= q3 <= msv.len(),
                        msv == ms@,
                        ow@ == ow_of(msv.subrange(0, q3 as int)),
                    decreases msv.len() - q3,
                {
                    ow.push((ms[q3].3, ms[q3].2));
                    proof {
                        assert(ow_of(msv.subrange(0, q3 as int + 1)) =~= ow_of(
                            msv.subrange(0, q3 as int),
                        ).push((msv[q3 as int].3, msv[q3 as int].2)));
                        assert(ow@ =~= ow_of(msv.subrange(0, q3 as int + 1)));
                    }
                    q3 += 1;
                }
                proof {
                    assert(msv.subrange(0, msv.len() as int) =~= msv);
                    assert(ow@ == ow_of(msv));
                    assert(sv[si as int] == self.skeletons@[si as int]@);
                }
                let pieces = split(&self.skeletons[si], &ow, g);
                let ghost piecesv = pieces@;
                let ghost center_before = self.center_with_width@;
                let mut q4: usize = 0;
                proof {
                    assert(pieces_view(self.center_with_width@) =~= pieces_view(center_before)
                        + pieces_view(piecesv.subrange(0, 0)));
                }
                while q4 < pieces.len()
                    invariant
                        0 <= q4 <= piecesv.len(),
                        piecesv == pieces@,
                        self.polygon == pg,
                        self.skeletons@ == skels_at,
                        self.thickened_lines@ == thick_after,
                        self.perp_lines@ == perps_after,
                        pieces_view(self.center_with_width@) == pieces_view(center_before)
                            + pieces_view(piecesv.subrange(0, q4 as int)),
                    decreases piecesv.len() - q4,
                {
                    let item = (pieces[q4].0.clone(), pieces[q4].1, pieces[q4].2);
                    let ghost cprev = self.center_with_width@;
                    self.center_with_width.push(item);
                    proof {
                        assert(pieces_view(self.center_with_width@) =~= pieces_view(cprev).push(
                            (piecesv[q4 as int].0@, piecesv[q4 as int].1, piecesv[q4 as int].2),
                        ));
                        assert(pieces_view(piecesv.subrange(0, q4 as int + 1)) =~= pieces_view(
                            piecesv.subrange(0, q4 as int),
                        ).push((piecesv[q4 as int].0@, piecesv[q4 as int].1, piecesv[q4 as int].2)));
                        assert(pieces_view(self.center_with_width@) =~= pieces_view(center_before)
                            + pieces_view(piecesv.subrange(0, q4 as int + 1)));
                    }
                    q4 += 1;
                }
                proof {
                    assert(piecesv.subrange(0, piecesv.len() as int) =~= piecesv);
                    assert(pieces_view(self.center_with_width@) =~= (pieces_view(center0)
                        + center_concat(pg, ratio, sv, d as int, g, si as int)) + split_spec(
                        sv[si as int],
                        ow_of(msv),
                        g,
                        0,
                    ));
                    assert(pieces_view(self.center_with_width@) =~= pieces_view(center0)
                        + center_concat(pg, ratio, sv, d as int, g, si as int + 1));
                }
            } else {
                proof {
                    assert(thick_views(self.thickened_lines@) =~= thick_views(thick0)
                        + thick_concat(pg, ratio, sv, d as int, si as int + 1));
                    assert(pieces_view(self.center_with_width@) =~= pieces_view(center0)
                        + center_concat(pg, ratio, sv, d as int, g, si as int + 1));
                }
            }
            si += 1;
        }
    }
}

/// Every kept hole comes from the input hole list.
proof fn lemma_kept_holes_from(hs: Seq<Seq<Pt>>, limit: Option<u64>, i: int)
    requires
        0 <= i <= hs.len(),
    ensures
        forall|m: int| 0 <= m < kept_hole_views(hs, limit, i).len() ==> exists|j: int|
            0 <= j < hs.len() && #[trigger] kept_hole_views(hs, limit, i)[m] == hs[j],
    decreases i,
{
    if i > 0 {
        lemma_kept_holes_from(hs, limit, i - 1);
        let prev = kept_hole_views(hs, limit, i - 1);
        let cur = kept_hole_views(hs, limit, i);
        assert forall|m: int| 0 <= m < cur.len() implies exists|j: int|
            0 <= j < hs.len() && #[trigger] cur[m] == hs[j] by {
            if m < prev.len() {
                assert(cur[m] == prev[m]);
            } else {
                assert(cur[m] == hs[i - 1]);
            }
        }
    }
}

/// Select the skeleton list: filter each candidate set in trial order,
/// keep the first that is not empty, join it when enabled, and prune the
/// short fragments.
pub fn compute_skeletons(pg: &Polygon, cfg: &Config, candidates: Vec<Vec<Polyline>>) -> (r: Vec<
    Polyline,
>)
    requires
        polygon_wf(*pg),
        cfg.wf(),
        forall|k: int| 0 <= k < candidates@.len() ==> frags_wf(views((#[trigger] candidates@[k])@)),
    ensures
        skeletonize_rel(*pg, *cfg, cand_views(candidates@), views(r@)),
        frags_wf(views(r@)),
{
    let ghost cvs = cand_views(candidates@);
    let mut k: usize = 0;
    while k < candidates.len()
        invariant
            0 <= k <= candidates@.len(),
            polygon_wf(*pg),
            cfg.wf(),
            cvs == cand_views(candidates@),
            forall|m: int| 0 <= m < candidates@.len() ==> frags_wf(
                views((#[trigger] candidates@[m])@),
            ),
            chosen_frags(*pg, *cfg, cvs, 0) == chosen_frags(*pg, *cfg, cvs, k as int),
        decreases candidates@.len() - k,
    {
        proof {
            assert(cvs[k as int] == views(candidates@[k as int]@));
        }
        let f = filter_cand_exec(pg, cfg, &candidates[k]);
        if f.len() > 0 {
            let ghost fv = views(f@);
            proof {
                assert(chosen_frags(*pg, *cfg, cvs, k as int) == fv);
            }
            let joined = if cfg.join_skeletons {
                join_linestrings(f)
            } else {
                f
            };
            let ghost jv = views(joined@);
            proof {
                if cfg.join_skeletons {
                    assert(join_done(fv, jv));
                }
            }
            let pruned = prune_short_exec(joined, cfg.remove_short_skeletons);
            proof {
                if cfg.join_skeletons {
                    assert(views(pruned@) == prune_short(
                        jv,
                        cfg.remove_short_skeletons,
                        jv.len() as int,
                    ));
                    assert(skeletonize_rel(*pg, *cfg, cvs, views(pruned@)));
                } else {
                    assert(skeletonize_rel(*pg, *cfg, cvs, views(pruned@)));
                }
            }
            return pruned;
        }
        proof {
            assert(chosen_frags(*pg, *cfg, cvs, k as int) == chosen_frags(
                *pg,
                *cfg,
                cvs,
                k as int + 1,
            ));
        }
        k += 1;
    }
    let out: Vec<Polyline> = Vec::new();
    proof {
        assert(views(out@) =~= Seq::<Seq<Pt>>::empty());
        assert(chosen_frags(*pg, *cfg, cvs, candidates@.len() as int) =~= Seq::<Seq<Pt>>::empty());
        assert(pts_total(views(out@)) == 0);
    }
    out
}

} // verus!



