//! Clips a probe segment against a polygon's boundary rings.
//!
//! Every single-point crossing between the probe and a boundary edge is a
//! hit; the clipped segment runs between the two hits nearest the probe's
//! reference midpoint, and an optional plausibility ratio rejects pairs
//! whose two sides are too asymmetric (a sign of a false crossing near a
//! sharp corner). All intersection arithmetic is exact rational arithmetic
//! on the grid, rounded toward the probe's start.

use vstd::prelude::*;
use crate::geom::{Pt, Polygon, Polyline, Segment, ring_wf, polygon_wf, in_bounds, dist2_spec,
    dist2_u64, tdiv, tdiv_i128, abs_i, lemma_tdiv_mag, EXT_LIMIT};

verus! {

/// The single-point intersection of segments `(pa, pb)` and `(c, d)`, if
/// any: collinear or parallel pairs yield nothing, and the point is rounded
/// toward `pa`. `tn`/`den2` is the fraction of the way from `pa` to `pb`.
pub open spec fn seg_hit(pa: Pt, pb: Pt, c: Pt, d: Pt) -> Option<Pt> {
    let rx = pb.x - pa.x;
    let ry = pb.y - pa.y;
    let sx = d.x - c.x;
    let sy = d.y - c.y;
    let den = rx * sy - ry * sx;
    if den == 0 {
        Option::None
    } else {
        let den2 = abs_i(den);
        let sg: int = if den > 0 {
            1int
        } else {
            -1int
        };
        let tn = sg * ((c.x - pa.x) * sy - (c.y - pa.y) * sx);
        let un = sg * ((c.x - pa.x) * ry - (c.y - pa.y) * rx);
        if 0 <= tn <= den2 && 0 <= un <= den2 {
            Option::Some(
                Pt {
                    x: (pa.x + tdiv(tn * rx, den2)) as i64,
                    y: (pa.y + tdiv(tn * ry, den2)) as i64,
                },
            )
        } else {
            Option::None
        }
    }
}

/// The interpolation step along one axis keeps the hit between the probe's
/// endpoints on that axis: it has the sign of the axis delta and at most its
/// magnitude.
proof fn lemma_hit_step(a1: i64, b1: i64, tn: int, den2: int)
    requires
        -EXT_LIMIT <= a1 <= EXT_LIMIT,
        -EXT_LIMIT <= b1 <= EXT_LIMIT,
        0 <= tn <= den2,
        1 <= den2,
    ensures
        -EXT_LIMIT <= a1 + tdiv(tn * (b1 - a1), den2) <= EXT_LIMIT,
{
    let rx = b1 - a1;
    assert(abs_i(tn * rx) <= abs_i(rx) * den2) by (nonlinear_arith)
        requires 0 <= tn <= den2,
    ;
    lemma_tdiv_mag(tn * rx, den2, abs_i(rx));
    if rx >= 0 {
        assert(tn * rx >= 0) by (nonlinear_arith)
            requires tn >= 0, rx >= 0,
        ;
        vstd::arithmetic::div_mod::lemma_div_pos_is_pos(tn * rx, den2);
        assert(a1 <= a1 + tdiv(tn * rx, den2) <= b1);
    } else {
        assert(tn * rx <= 0) by (nonlinear_arith)
            requires tn >= 0, rx < 0,
        ;
        vstd::arithmetic::div_mod::lemma_div_pos_is_pos(-(tn * rx), den2);
        assert(tdiv(tn * rx, den2) <= 0);
        assert(b1 <= a1 + tdiv(tn * rx, den2) <= a1);
    }
}

/// The intersection point lies between the probe's endpoints on each axis.
proof fn lemma_seg_hit_bounds(pa: Pt, pb: Pt, c: Pt, d: Pt)
    requires
        in_bounds(pa, EXT_LIMIT),
        in_bounds(pb, EXT_LIMIT),
    ensures
        seg_hit(pa, pb, c, d) matches Option::Some(p) ==> in_bounds(p, EXT_LIMIT),
        ({
            let rx = pb.x - pa.x;
            let ry = pb.y - pa.y;
            let sx = d.x - c.x;
            let sy = d.y - c.y;
            let den = rx * sy - ry * sx;
            let den2 = abs_i(den);
            let sg: int = if den > 0 {
                1int
            } else {
                -1int
            };
            let tn = sg * ((c.x - pa.x) * sy - (c.y - pa.y) * sx);
            (den != 0 && 0 <= tn <= den2) ==> {
                &&& -EXT_LIMIT <= pa.x + tdiv(tn * rx, den2) <= EXT_LIMIT
                &&& -EXT_LIMIT <= pa.y + tdiv(tn * ry, den2) <= EXT_LIMIT
            }
        }),
{
    let rx = pb.x - pa.x;
    let ry = pb.y - pa.y;
    let sx = d.x - c.x;
    let sy = d.y - c.y;
    let den = rx * sy - ry * sx;
    if den != 0 {
        let den2 = abs_i(den);
        let sg: int = if den > 0 {
            1int
        } else {
            -1int
        };
        let tn = sg * ((c.x - pa.x) * sy - (c.y - pa.y) * sx);
        if 0 <= tn <= den2 {
            lemma_hit_step(pa.x, pb.x, tn, den2);
            lemma_hit_step(pa.y, pb.y, tn, den2);
        }
    }
}

/// Exact computation of `seg_hit`.
fn seg_hit_exec(pa: Pt, pb: Pt, c: Pt, d: Pt) -> (r: Option<Pt>)
    requires
        in_bounds(pa, EXT_LIMIT),
        in_bounds(pb, EXT_LIMIT),
        in_bounds(c, EXT_LIMIT),
        in_bounds(d, EXT_LIMIT),
    ensures
        r == seg_hit(pa, pb, c, d),
        r matches Option::Some(p) ==> in_bounds(p, EXT_LIMIT),
{
    proof {
        lemma_seg_hit_bounds(pa, pb, c, d);
    }
    let rx: i128 = pb.x as i128 - pa.x as i128;
    let ry: i128 = pb.y as i128 - pa.y as i128;
    let sx: i128 = d.x as i128 - c.x as i128;
    let sy: i128 = d.y as i128 - c.y as i128;
    proof {
        let m = 2 * EXT_LIMIT as int;
        assert(abs_i(rx as int * sy as int) <= m * m && abs_i(ry as int * sx as int) <= m * m
            && abs_i((c.x - pa.x) * sy as int) <= m * m && abs_i((c.y - pa.y) * sx as int) <= m * m
            && abs_i((c.x - pa.x) * ry as int) <= m * m && abs_i((c.y - pa.y) * rx as int) <= m
            * m) by (nonlinear_arith)
            requires
                -m <= rx as int <= m,
                -m <= ry as int <= m,
                -m <= sx as int <= m,
                -m <= sy as int <= m,
                -m <= c.x - pa.x <= m,
                -m <= c.y - pa.y <= m,
                m == 2 * EXT_LIMIT as int,
        ;
    }
    let den: i128 = rx * sy - ry * sx;
    if den == 0 {
        return Option::None;
    }
    let den2: i128 = if den > 0 {
        den
    } else {
        -den
    };
    let tn_raw: i128 = (c.x as i128 - pa.x as i128) * sy - (c.y as i128 - pa.y as i128) * sx;
    let un_raw: i128 = (c.x as i128 - pa.x as i128) * ry - (c.y as i128 - pa.y as i128) * rx;
    let tn: i128 = if den > 0 {
        tn_raw
    } else {
        -tn_raw
    };
    let un: i128 = if den > 0 {
        un_raw
    } else {
        -un_raw
    };
    if 0 <= tn && tn <= den2 && 0 <= un && un <= den2 {
        proof {
            let m = 2 * EXT_LIMIT as int;
            assert(abs_i(tn as int * rx as int) <= (2 * (m * m)) * m && abs_i(
                tn as int * ry as int,
            ) <= (2 * (m * m)) * m) by (nonlinear_arith)
                requires
                    abs_i(tn as int) <= 2 * (m * m),
                    -m <= rx as int <= m,
                    -m <= ry as int <= m,
                    m > 0,
            ;
            assert(abs_i(tn as int * rx as int) <= abs_i(rx as int) * den2 as int)
                by (nonlinear_arith)
                requires 0 <= tn as int <= den2 as int,
            ;
            assert(abs_i(tn as int * ry as int) <= abs_i(ry as int) * den2 as int)
                by (nonlinear_arith)
                requires 0 <= tn as int <= den2 as int,
            ;
            lemma_tdiv_mag(tn as int * rx as int, den2 as int, abs_i(rx as int));
            lemma_tdiv_mag(tn as int * ry as int, den2 as int, abs_i(ry as int));
        }
        let qx = tdiv_i128(tn * rx, den2);
        let qy = tdiv_i128(tn * ry, den2);
        let res = Option::Some(Pt { x: (pa.x as i128 + qx) as i64, y: (pa.y as i128 + qy) as i64 });
        proof {
            let srx = pb.x - pa.x;
            let sry = pb.y - pa.y;
            let ssx = d.x - c.x;
            let ssy = d.y - c.y;
            let sden = srx * ssy - sry * ssx;
            assert(den as int == sden);
            let sden2 = abs_i(sden);
            let ssg: int = if sden > 0 {
                1int
            } else {
                -1int
            };
            let stn = ssg * ((c.x - pa.x) * ssy - (c.y - pa.y) * ssx);
            let sun = ssg * ((c.x - pa.x) * sry - (c.y - pa.y) * srx);
            assert(den2 as int == sden2);
            assert(tn_raw as int == (c.x - pa.x) * ssy - (c.y - pa.y) * ssx);
            assert(un_raw as int == (c.x - pa.x) * sry - (c.y - pa.y) * srx);
            let raw_t = (c.x - pa.x) * ssy - (c.y - pa.y) * ssx;
            let raw_u = (c.x - pa.x) * sry - (c.y - pa.y) * srx;
            assert(1int * raw_t == raw_t && (-1int) * raw_t == -raw_t) by (nonlinear_arith);
            assert(1int * raw_u == raw_u && (-1int) * raw_u == -raw_u) by (nonlinear_arith);
            assert(tn as int == stn);
            assert(un as int == sun);
            assert(qx == tdiv(stn * srx, sden2) && qy == tdiv(stn * sry, sden2));
            assert(res == seg_hit(pa, pb, c, d));
        }
        res
    } else {
        proof {
            let srx = pb.x - pa.x;
            let sry = pb.y - pa.y;
            let ssx = d.x - c.x;
            let ssy = d.y - c.y;
            let sden = srx * ssy - sry * ssx;
            assert(den as int == sden);
            let raw_t = (c.x - pa.x) * ssy - (c.y - pa.y) * ssx;
            let raw_u = (c.x - pa.x) * sry - (c.y - pa.y) * srx;
            assert(tn_raw as int == raw_t && un_raw as int == raw_u);
            assert(1int * raw_t == raw_t && (-1int) * raw_t == -raw_t) by (nonlinear_arith);
            assert(1int * raw_u == raw_u && (-1int) * raw_u == -raw_u) by (nonlinear_arith);
            assert(Option::<Pt>::None == seg_hit(pa, pb, c, d));
        }
        Option::None
    }
}

/// Hits of the probe against the first `j` edges of a closed ring.
pub open spec fn ring_hits_to(pa: Pt, pb: Pt, ring: Seq<Pt>, j: int) -> Seq<Pt>
    decreases j,
{
    if j <= 0 {
        Seq::empty()
    } else {
        ring_hits_to(pa, pb, ring, j - 1) + match seg_hit(pa, pb, ring[j - 1], ring[j]) {
            Option::Some(p) => seq![p],
            Option::None => Seq::<Pt>::empty(),
        }
    }
}

/// All hits of the probe against a closed ring.
pub open spec fn ring_hits_all(pa: Pt, pb: Pt, ring: Seq<Pt>) -> Seq<Pt> {
    ring_hits_to(pa, pb, ring, ring.len() - 1)
}

/// Hits against the first `k` holes.
pub open spec fn holes_hits_to(pa: Pt, pb: Pt, holes: Seq<Polyline>, k: int) -> Seq<Pt>
    decreases k,
{
    if k <= 0 {
        Seq::empty()
    } else {
        holes_hits_to(pa, pb, holes, k - 1) + ring_hits_all(pa, pb, holes[k - 1]@)
    }
}

/// All single-point hits of the probe against every boundary ring, exterior
/// first, then each hole, in edge order.
pub open spec fn polygon_hits(pg: Polygon, pa: Pt, pb: Pt) -> Seq<Pt> {
    ring_hits_all(pa, pb, pg.exterior@) + holes_hits_to(pa, pb, pg.holes@, pg.holes@.len() as int)
}

/// Index of the first hit nearest the midpoint among the first `i`.
pub open spec fn min_hit_idx(hits: Seq<Pt>, mid: Pt, i: int) -> int
    decreases i,
{
    if i <= 1 {
        0
    } else {
        let prev = min_hit_idx(hits, mid, i - 1);
        if dist2_spec(mid, hits[i - 1]) < dist2_spec(mid, hits[prev]) {
            i - 1
        } else {
            prev
        }
    }
}

pub proof fn lemma_min_hit_idx(hits: Seq<Pt>, mid: Pt, i: int)
    requires
        1 <= i <= hits.len(),
    ensures
        0 <= min_hit_idx(hits, mid, i) < i,
        forall|k: int| 0 <= k < i ==> dist2_spec(mid, hits[min_hit_idx(hits, mid, i)])
            <= dist2_spec(mid, #[trigger] hits[k]),
    decreases i,
{
    if i > 1 {
        lemma_min_hit_idx(hits, mid, i - 1);
    }
}

/// Whether the plausibility filter rejects the two chosen hits: the ratio
/// of the nearer to the farther midpoint distance falls below the threshold
/// (given in parts per million).
pub open spec fn ratio_rejects(mid: Pt, h1: Pt, h2: Pt, ratio: Option<u32>) -> bool {
    match ratio {
        Option::Some(t) => dist2_spec(mid, h1) * 1_000_000_000_000 < ((t as int) * (t as int))
            * dist2_spec(mid, h2),
        Option::None => false,
    }
}

/// The clipped probe: the two boundary hits nearest the midpoint, nearest
/// first, or nothing when fewer than two hits exist or the plausibility
/// filter rejects the pair.
pub open spec fn clip_spec(pg: Polygon, mid: Pt, pa: Pt, pb: Pt, ratio: Option<u32>) -> Option<
    Segment,
> {
    let hits = polygon_hits(pg, pa, pb);
    if hits.len() < 2 {
        Option::None
    } else {
        let i1 = min_hit_idx(hits, mid, hits.len() as int);
        let h1 = hits[i1];
        let rest = hits.remove(i1);
        let i2 = min_hit_idx(rest, mid, rest.len() as int);
        let h2 = rest[i2];
        if ratio_rejects(mid, h1, h2, ratio) {
            Option::None
        } else {
            Option::Some(Segment { a: h1, b: h2 })
        }
    }
}

/// Push all hits of the probe against one ring.
fn ring_hits_exec(pa: Pt, pb: Pt, ring: &Polyline, hits: &mut Vec<Pt>)
    requires
        in_bounds(pa, EXT_LIMIT),
        in_bounds(pb, EXT_LIMIT),
        ring_wf(ring@),
        forall|m: int| 0 <= m < old(hits)@.len() ==> in_bounds(#[trigger] old(hits)@[m], EXT_LIMIT),
    ensures
        final(hits)@ == old(hits)@ + ring_hits_all(pa, pb, ring@),
        forall|m: int| 0 <= m < final(hits)@.len() ==> in_bounds(
            #[trigger] final(hits)@[m],
            EXT_LIMIT,
        ),
{
    let ghost base = hits@;
    let n = ring.pts.len();
    let mut j: usize = 1;
    proof {
        assert(hits@ =~= base + ring_hits_to(pa, pb, ring@, 0));
    }
    while j < n
        invariant
            1 <= j <= n,
            n == ring@.len(),
            ring_wf(ring@),
            in_bounds(pa, EXT_LIMIT),
            in_bounds(pb, EXT_LIMIT),
            hits@ == base + ring_hits_to(pa, pb, ring@, j - 1),
            forall|m: int| 0 <= m < hits@.len() ==> in_bounds(#[trigger] hits@[m], EXT_LIMIT),
        decreases n - j,
    {
        let a = ring.pts[j - 1];
        let b = ring.pts[j];
        proof {
            crate::geom::lemma_pt_widen(a, b);
        }
        match seg_hit_exec(pa, pb, a, b) {
            Option::Some(p) => {
                hits.push(p);
                proof {
                    assert(hits@ =~= base + ring_hits_to(pa, pb, ring@, j as int));
                }
            },
            Option::None => {
                proof {
                    assert(hits@ =~= base + ring_hits_to(pa, pb, ring@, j as int));
                }
            },
        }
        j += 1;
    }
}

/// Clip the probe against every boundary ring of the polygon and keep the
/// two hits nearest the midpoint. Yields nothing exactly when fewer than
/// two single-point hits exist or the plausibility ratio rejects the pair.
pub fn clip_line_to_polygon(
    polygon: &Polygon,
    midpoint: Pt,
    probe: Segment,
    ratio: Option<u32>,
) -> (r: Option<Segment>)
    requires
        polygon_wf(*polygon),
        in_bounds(midpoint, EXT_LIMIT),
        in_bounds(probe.a, EXT_LIMIT),
        in_bounds(probe.b, EXT_LIMIT),
        ratio matches Option::Some(t) ==> t <= 1_000_000,
    ensures
        r == clip_spec(*polygon, midpoint, probe.a, probe.b, ratio),
        r matches Option::Some(sg) ==> in_bounds(sg.a, EXT_LIMIT) && in_bounds(sg.b, EXT_LIMIT),
        polygon_hits(*polygon, probe.a, probe.b).len() < 2 ==> r is None,
        // The clipped segment starts at a hit no farther from the midpoint
        // than any other boundary hit.
        r matches Option::Some(sg) ==> forall|k: int|
            0 <= k < polygon_hits(*polygon, probe.a, probe.b).len() ==> dist2_spec(
                midpoint,
                sg.a,
            ) <= dist2_spec(midpoint, #[trigger] polygon_hits(*polygon, probe.a, probe.b)[k]),
{
    let pa = probe.a;
    let pb = probe.b;
    let mut hits: Vec<Pt> = Vec::new();
    ring_hits_exec(pa, pb, &polygon.exterior, &mut hits);
    let ghost ext_hits = hits@;
    let mut k: usize = 0;
    while k < polygon.holes.len()
        invariant
            k <= polygon.holes@.len(),
            polygon_wf(*polygon),
            in_bounds(pa, EXT_LIMIT),
            in_bounds(pb, EXT_LIMIT),
            ext_hits == ring_hits_all(pa, pb, polygon.exterior@),
            hits@ == ext_hits + holes_hits_to(pa, pb, polygon.holes@, k as int),
            forall|m: int| 0 <= m < hits@.len() ==> in_bounds(#[trigger] hits@[m], EXT_LIMIT),
        decreases polygon.holes@.len() - k,
    {
        ring_hits_exec(pa, pb, &polygon.holes[k], &mut hits);
        proof {
            assert(hits@ =~= ext_hits + holes_hits_to(pa, pb, polygon.holes@, k as int + 1));
        }
        k += 1;
    }
    proof {
        assert(hits@ == polygon_hits(*polygon, pa, pb));
    }
    if hits.len() < 2 {
        return Option::None;
    }
    // First pass: the hit nearest the midpoint.
    let mut i1: usize = 0;
    let mut m: usize = 1;
    while m < hits.len()
        invariant
            1 <= m <= hits@.len(),
            i1 == min_hit_idx(hits@, midpoint, m as int),
            0 <= i1 < m,
            in_bounds(midpoint, EXT_LIMIT),
            forall|x: int| 0 <= x < hits@.len() ==> in_bounds(#[trigger] hits@[x], EXT_LIMIT),
        decreases hits@.len() - m,
    {
        if dist2_u64(midpoint, hits[m]) < dist2_u64(midpoint, hits[i1]) {
            i1 = m;
        }
        m += 1;
    }
    let h1 = hits[i1];
    // Second pass: the nearest hit among the rest.
    let ghost rest = hits@.remove(i1 as int);
    let mut i2: usize = if i1 == 0 {
        1
    } else {
        0
    };
    let mut j: usize = 1;
    proof {
        assert(rest[0] == (if i1 == 0 {
            hits@[1]
        } else {
            hits@[0]
        }));
    }
    while j < hits.len() - 1
        invariant
            1 <= j <= rest.len(),
            rest == hits@.remove(i1 as int),
            rest.len() == hits@.len() - 1,
            0 <= i1 < hits@.len(),
            hits@.len() >= 2,
            i2 == (if min_hit_idx(rest, midpoint, j as int) < i1 as int {
                min_hit_idx(rest, midpoint, j as int)
            } else {
                min_hit_idx(rest, midpoint, j as int) + 1
            }),
            0 <= i2 < hits@.len(),
            i2 != i1,
            in_bounds(midpoint, EXT_LIMIT),
            forall|x: int| 0 <= x < hits@.len() ==> in_bounds(#[trigger] hits@[x], EXT_LIMIT),
        decreases hits@.len() - 1 - j,
    {
        let jj = if j < i1 {
            j
        } else {
            j + 1
        };
        proof {
            assert(rest[j as int] == hits@[jj as int]);
            assert(rest[min_hit_idx(rest, midpoint, j as int)] == hits@[i2 as int]);
        }
        if dist2_u64(midpoint, hits[jj]) < dist2_u64(midpoint, hits[i2]) {
            i2 = jj;
        }
        j += 1;
    }
    let h2 = hits[i2];
    proof {
        assert(rest[min_hit_idx(rest, midpoint, rest.len() as int)] == hits@[i2 as int]);
    }
    // Plausibility: reject when the nearer side is too short relative to
    // the farther side.
    if let Option::Some(t) = ratio {
        let d1 = dist2_u64(midpoint, h1);
        let d2 = dist2_u64(midpoint, h2);
        proof {
            assert((t as int) * (t as int) <= 1_000_000_000_000) by (nonlinear_arith)
                requires 0 <= t as int <= 1_000_000,
            ;
            assert(((t as int) * (t as int)) * (d2 as int) <= 1_000_000_000_000
                * 0xFFFF_FFFF_FFFF_FFFFint) by (nonlinear_arith)
                requires
                    0 <= (t as int) * (t as int) <= 1_000_000_000_000,
                    0 <= d2 as int <= 0xFFFF_FFFF_FFFF_FFFFint,
            ;
        }
        if (d1 as u128) * 1_000_000_000_000u128 < ((t as u128) * (t as u128)) * (d2 as u128) {
            return Option::None;
        }
    }
    proof {
        lemma_min_hit_idx(hits@, midpoint, hits@.len() as int);
    }
    Option::Some(Segment { a: h1, b: h2 })
}

} // verus!
