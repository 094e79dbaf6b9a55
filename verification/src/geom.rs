//! Integer geometry primitives: grid points, distances, arc lengths.
//!
//! Plane coordinates are millimeters on a grid bounded by [`COORD_LIMIT`];
//! probe construction may push intermediate points slightly past that, up to
//! [`EXT_LIMIT`]. Keeping every coordinate inside these bounds is what lets
//! all squared-distance and cross-product arithmetic be carried exactly in
//! 64/128-bit integers.

use vstd::prelude::*;

verus! {

/// Largest admissible input coordinate magnitude, in millimeters (about 1073 km).
pub const COORD_LIMIT: i64 = 0x4000_0000;

/// Bound for derived points (probe ends, interpolations): input bound plus
/// roughly one kilometer of slack.
pub const EXT_LIMIT: i64 = 0x4010_0000;

/// Most points a single polyline or ring may carry.
pub const MAX_PTS: usize = 65536;

/// Upper bound on one grid segment's length (exclusive bounds give `<=`).
pub const SEG_LEN_MAX: u64 = 0x1_0000_0000;

/// A point on the integer grid.
#[derive(Clone, Copy, PartialEq, Eq, Structural, Debug)]
pub struct Pt {
    pub x: i64,
    pub y: i64,
}

pub open spec fn in_bounds(p: Pt, m: i64) -> bool {
    -m <= p.x <= m && -m <= p.y <= m
}

pub open spec fn sq(x: int) -> int {
    x * x
}

pub open spec fn dist2_spec(a: Pt, b: Pt) -> int {
    sq(a.x - b.x) + sq(a.y - b.y)
}

/// Floor of the real square root, as a recursive definition.
pub open spec fn sqrt_floor(n: nat) -> nat
    decreases n,
{
    if n == 0 {
        0
    } else {
        let p = sqrt_floor((n - 1) as nat);
        if (p + 1) * (p + 1) <= n {
            p + 1
        } else {
            p
        }
    }
}

pub proof fn lemma_sqrt_floor_bounds(n: nat)
    ensures
        (sqrt_floor(n) as int) * (sqrt_floor(n) as int) <= n as int,
        (n as int) < ((sqrt_floor(n) as int) + 1) * ((sqrt_floor(n) as int) + 1),
    decreases n,
{
    if n == 0 {
        assert(sqrt_floor(0) == 0);
    } else {
        let m = (n - 1) as nat;
        lemma_sqrt_floor_bounds(m);
        let p = sqrt_floor(m) as int;
        let s = sqrt_floor(n) as int;
        if (p + 1) * (p + 1) <= n as int {
            assert(s == p + 1);
            assert(s * s <= n as int);
            assert((n as int) < (s + 1) * (s + 1)) by (nonlinear_arith)
                requires p >= 0, s == p + 1, (m as int) < (p + 1) * (p + 1), n == m + 1,
            ;
        } else {
            assert(s == p);
            assert(s * s <= n as int);
            assert((n as int) < (s + 1) * (s + 1));
        }
    }
}

/// The floor square root is the unique value within its defining bounds.
pub proof fn lemma_sqrt_floor_unique(n: nat, r: nat)
    requires
        r * r <= n,
        n < (r + 1) * (r + 1),
    ensures
        r == sqrt_floor(n),
{
    lemma_sqrt_floor_bounds(n);
    let s = sqrt_floor(n);
    if r < s {
        assert((r + 1) * (r + 1) <= s * s) by (nonlinear_arith)
            requires r < s,
        ;
    }
    if s < r {
        assert((s + 1) * (s + 1) <= r * r) by (nonlinear_arith)
            requires s < r,
        ;
    }
}

pub proof fn lemma_sqrt_floor_monotone(m: nat, n: nat)
    requires
        m <= n,
    ensures
        sqrt_floor(m) <= sqrt_floor(n),
{
    lemma_sqrt_floor_bounds(m);
    lemma_sqrt_floor_bounds(n);
    let a = sqrt_floor(m);
    let b = sqrt_floor(n);
    if b < a {
        assert((b + 1) * (b + 1) <= a * a) by (nonlinear_arith)
            requires b < a,
        ;
    }
}

/// Floor square root of a 64-bit integer, by binary search.
pub fn isqrt_u64(n: u64) -> (r: u64)
    ensures
        r == sqrt_floor(n as nat),
        r <= SEG_LEN_MAX,
{
    let mut lo: u64 = 0;
    let mut hi: u64 = 0x1_0000_0000;
    proof {
        assert((hi as int) * (hi as int) > n as int) by (nonlinear_arith)
            requires hi == 0x1_0000_0000u64, n <= u64::MAX,
        ;
    }
    while lo + 1 < hi
        invariant
            lo < hi,
            hi <= 0x1_0000_0000u64,
            (lo as int) * (lo as int) <= n as int,
            (hi as int) * (hi as int) > n as int,
        decreases hi - lo,
    {
        let mid: u64 = lo + (hi - lo) / 2;
        proof {
            assert((mid as int) * (mid as int) <= 0x1_0000_0000_0000_0000) by (nonlinear_arith)
                requires mid <= 0x1_0000_0000u64,
            ;
        }
        if (mid as u128) * (mid as u128) <= n as u128 {
            lo = mid;
        } else {
            hi = mid;
        }
    }
    proof {
        lemma_sqrt_floor_unique(n as nat, lo as nat);
    }
    lo
}

pub proof fn lemma_sq_nonneg(x: int)
    ensures
        sq(x) >= 0,
{
    assert(x * x >= 0) by (nonlinear_arith);
}

pub proof fn lemma_dist2_nonneg(a: Pt, b: Pt)
    ensures
        dist2_spec(a, b) >= 0,
{
    lemma_sq_nonneg(a.x - b.x);
    lemma_sq_nonneg(a.y - b.y);
}

pub proof fn lemma_dist2_bound(a: Pt, b: Pt)
    requires
        in_bounds(a, EXT_LIMIT),
        in_bounds(b, EXT_LIMIT),
    ensures
        0 <= dist2_spec(a, b) <= u64::MAX,
{
    lemma_dist2_nonneg(a, b);
    let d = 2 * EXT_LIMIT as int;
    assert(sq(a.x - b.x) <= d * d && sq(a.y - b.y) <= d * d) by (nonlinear_arith)
        requires -d <= a.x - b.x <= d, -d <= a.y - b.y <= d,
    ;
    assert(d * d + d * d <= u64::MAX as int) by (nonlinear_arith)
        requires d == 0x8020_0000int,
    ;
}

/// Exact squared distance between two bounded grid points.
pub fn dist2_u64(a: Pt, b: Pt) -> (r: u64)
    requires
        in_bounds(a, EXT_LIMIT),
        in_bounds(b, EXT_LIMIT),
    ensures
        r == dist2_spec(a, b),
{
    proof {
        lemma_dist2_bound(a, b);
    }
    let dx: i128 = a.x as i128 - b.x as i128;
    let dy: i128 = a.y as i128 - b.y as i128;
    proof {
        lemma_sq_nonneg(a.x - b.x);
        lemma_sq_nonneg(a.y - b.y);
    }
    (dx * dx + dy * dy) as u64
}

/// A segment's length on the grid: the floor square root of its squared length.
pub open spec fn seg_len_spec(a: Pt, b: Pt) -> int {
    sqrt_floor(dist2_spec(a, b) as nat) as int
}

pub proof fn lemma_seg_len_bound(a: Pt, b: Pt)
    requires
        in_bounds(a, EXT_LIMIT),
        in_bounds(b, EXT_LIMIT),
    ensures
        0 <= seg_len_spec(a, b) <= SEG_LEN_MAX,
{
    lemma_dist2_bound(a, b);
    let n = dist2_spec(a, b) as nat;
    lemma_sqrt_floor_bounds(n);
    let s = sqrt_floor(n);
    if s > SEG_LEN_MAX {
        assert(s * s > u64::MAX) by (nonlinear_arith)
            requires s > SEG_LEN_MAX as nat,
        ;
    }
}

/// Exact grid length of the segment from `a` to `b`.
pub fn seg_len(a: Pt, b: Pt) -> (r: u64)
    requires
        in_bounds(a, EXT_LIMIT),
        in_bounds(b, EXT_LIMIT),
    ensures
        r == seg_len_spec(a, b),
        r <= SEG_LEN_MAX,
{
    isqrt_u64(dist2_u64(a, b))
}

/// Most rings a polygon may carry (exterior plus holes).
pub const MAX_RINGS: usize = 1024;

/// A straight segment between two grid points.
#[derive(Clone, Copy, PartialEq, Eq, Structural, Debug)]
pub struct Segment {
    pub a: Pt,
    pub b: Pt,
}

/// An open chain of grid points.
pub struct Polyline {
    pub pts: Vec<Pt>,
}

impl View for Polyline {
    type V = Seq<Pt>;

    open spec fn view(&self) -> Seq<Pt> {
        self.pts@
    }
}

impl Clone for Polyline {
    fn clone(&self) -> (r: Self)
        ensures
            r@ == self@,
    {
        let mut v: Vec<Pt> = Vec::new();
        let mut i: usize = 0;
        while i < self.pts.len()
            invariant
                i <= self.pts.len(),
                v@ == self.pts@.subrange(0, i as int),
            decreases self.pts.len() - i,
        {
            v.push(self.pts[i]);
            i += 1;
        }
        proof {
            assert(v@ =~= self.pts@);
        }
        Polyline { pts: v }
    }
}

/// An exterior ring plus zero or more interior rings (holes). Rings are
/// stored closed: the first point is repeated at the end.
pub struct Polygon {
    pub exterior: Polyline,
    pub holes: Vec<Polyline>,
}

pub open spec fn pts_bounded(s: Seq<Pt>, m: i64) -> bool {
    forall|i: int| 0 <= i < s.len() ==> in_bounds(#[trigger] s[i], m)
}

pub open spec fn polyline_wf(s: Seq<Pt>) -> bool {
    &&& 2 <= s.len() <= MAX_PTS
    &&& pts_bounded(s, COORD_LIMIT)
}

/// A closed boundary ring: at least a triangle, first point repeated last.
pub open spec fn ring_wf(s: Seq<Pt>) -> bool {
    &&& 4 <= s.len() <= MAX_PTS
    &&& s[0] == s[s.len() - 1]
    &&& pts_bounded(s, COORD_LIMIT)
}

pub open spec fn polygon_wf(p: Polygon) -> bool {
    &&& ring_wf(p.exterior@)
    &&& p.holes@.len() < MAX_RINGS
    &&& forall|i: int| 0 <= i < p.holes@.len() ==> ring_wf(#[trigger] p.holes@[i]@)
}

/// Arc length of the first `i` segments of a point chain.
pub open spec fn arc_len_to(s: Seq<Pt>, i: int) -> int
    decreases i,
{
    if i <= 0 {
        0
    } else {
        arc_len_to(s, i - 1) + seg_len_spec(s[i - 1], s[i])
    }
}

/// Total arc length of a point chain: the sum of its segments' grid lengths.
pub open spec fn polyline_len_spec(s: Seq<Pt>) -> int {
    arc_len_to(s, s.len() - 1)
}

pub proof fn lemma_arc_len_to_bounds(s: Seq<Pt>, i: int)
    requires
        pts_bounded(s, EXT_LIMIT),
        0 <= i < s.len(),
    ensures
        0 <= arc_len_to(s, i),
        arc_len_to(s, i) <= i * (SEG_LEN_MAX as int),
    decreases i,
{
    if i == 0 {
    } else {
        lemma_arc_len_to_bounds(s, i - 1);
        lemma_seg_len_bound(s[i - 1], s[i]);
        assert((i - 1) * (SEG_LEN_MAX as int) + SEG_LEN_MAX == i * (SEG_LEN_MAX as int))
            by (nonlinear_arith);
    }
}

/// Total arc length of a polyline.
pub fn polyline_len(line: &Polyline) -> (r: u64)
    requires
        1 <= line@.len() <= MAX_PTS,
        pts_bounded(line@, EXT_LIMIT),
    ensures
        r == polyline_len_spec(line@),
        r as int <= (MAX_PTS as int) * (SEG_LEN_MAX as int),
{
    let mut total: u64 = 0;
    let mut i: usize = 1;
    proof {
        lemma_arc_len_to_bounds(line@, line@.len() - 1);
    }
    while i < line.pts.len()
        invariant
            1 <= i <= line.pts.len(),
            1 <= line@.len() <= MAX_PTS,
            pts_bounded(line@, EXT_LIMIT),
            total == arc_len_to(line@, i - 1),
        decreases line.pts.len() - i,
    {
        proof {
            lemma_arc_len_to_bounds(line@, i - 1);
            lemma_arc_len_to_bounds(line@, i as int);
        }
        total = total + seg_len(line.pts[i - 1], line.pts[i]);
        i += 1;
    }
    total
}

/// Absolute value.
pub open spec fn abs_i(x: int) -> int {
    if x >= 0 {
        x
    } else {
        -x
    }
}

/// Truncating division (rounds toward zero), for positive divisors. This is
/// the rounding used when interpolating along a segment.
pub open spec fn tdiv(a: int, b: int) -> int {
    if a >= 0 {
        a / b
    } else {
        -((-a) / b)
    }
}

pub proof fn lemma_tdiv_mag(a: int, b: int, m: int)
    requires
        1 <= b,
        0 <= m,
        abs_i(a) <= m * b,
    ensures
        -m <= tdiv(a, b) <= m,
{
    vstd::arithmetic::div_mod::lemma_div_multiples_vanish(m, b);
    if a >= 0 {
        vstd::arithmetic::div_mod::lemma_div_is_ordered(a, b * m, b);
        vstd::arithmetic::div_mod::lemma_div_pos_is_pos(a, b);
        assert(b * m == m * b);
    } else {
        vstd::arithmetic::div_mod::lemma_div_is_ordered(-a, b * m, b);
        vstd::arithmetic::div_mod::lemma_div_pos_is_pos(-a, b);
        assert(b * m == m * b);
    }
}

/// Exact truncating division on 128-bit integers.
pub fn tdiv_i128(a: i128, b: i128) -> (q: i128)
    requires
        1 <= b,
        -i128::MAX <= a,
    ensures
        q == tdiv(a as int, b as int),
{
    if a >= 0 {
        ((a as u128) / (b as u128)) as i128
    } else {
        let m: u128 = (-a) as u128;
        let d: u128 = m / (b as u128);
        -(d as i128)
    }
}

pub proof fn lemma_pt_widen(a: Pt, b: Pt)
    requires
        in_bounds(a, COORD_LIMIT),
        in_bounds(b, COORD_LIMIT),
    ensures
        in_bounds(a, EXT_LIMIT),
        in_bounds(b, EXT_LIMIT),
{
}

/// Euclidean (floor) division for a positive divisor, defined for negative
/// numerators as well.
pub fn fdiv_i128(a: i128, b: i128) -> (q: i128)
    requires
        1 <= b,
        -i128::MAX <= a,
    ensures
        q == a as int / b as int,
        -abs_i(a as int) <= q <= abs_i(a as int),
{
    proof {
        vstd::arithmetic::div_mod::lemma_fundamental_div_mod(a as int, b as int);
        vstd::arithmetic::div_mod::lemma_mod_bound(a as int, b as int);
    }
    if a >= 0 {
        let q = ((a as u128) / (b as u128)) as i128;
        proof {
            vstd::arithmetic::div_mod::lemma_div_pos_is_pos(a as int, b as int);
            vstd::arithmetic::div_mod::lemma_fundamental_div_mod_converse(a as int, 1, a as int, 0);
            vstd::arithmetic::div_mod::lemma_div_is_ordered_by_denominator(a as int, 1, b as int);
        }
        q
    } else {
        let m: u128 = (-a) as u128;
        let d: u128 = b as u128;
        let k: u128 = (m + (d - 1)) / d;
        proof {
            let q0 = (a as int) / (b as int);
            let r0 = (a as int) % (b as int);
            // The quotient of a negative numerator lies between it and zero.
            assert(a as int <= q0 <= 0) by (nonlinear_arith)
                requires
                    a as int == (b as int) * q0 + r0,
                    0 <= r0,
                    r0 < b as int,
                    1 <= b as int,
                    (a as int) < 0,
            ;
            // ceil(-a / b) is exactly -(a / b) for a < 0.
            assert((m as int) + (b as int) - 1 == (b as int) * (-q0) + ((b as int) - 1 - r0))
                by (nonlinear_arith)
                requires a as int == (b as int) * q0 + r0, m as int == -(a as int),
            ;
            vstd::arithmetic::div_mod::lemma_fundamental_div_mod_converse(
                (m as int) + (b as int) - 1,
                b as int,
                -q0,
                (b as int) - 1 - r0,
            );
        }
        -(k as i128)
    }
}

/// The tightest axis-aligned rectangle covering a list of points:
/// componentwise minimum and maximum, each attained by some point.
/// Nothing for an empty list.
pub fn bounding_box(pts: &Vec<Pt>) -> (r: Option<(Pt, Pt)>)
    ensures
        r is Some <==> pts@.len() > 0,
        r matches Some(b) ==> {
            &&& forall|i: int| 0 <= i < pts@.len() ==> b.0.x <= (#[trigger] pts@[i]).x
                && b.0.y <= pts@[i].y && pts@[i].x <= b.1.x && pts@[i].y <= b.1.y
            &&& exists|i: int| 0 <= i < pts@.len() && (#[trigger] pts@[i]).x == b.0.x
            &&& exists|i: int| 0 <= i < pts@.len() && (#[trigger] pts@[i]).y == b.0.y
            &&& exists|i: int| 0 <= i < pts@.len() && (#[trigger] pts@[i]).x == b.1.x
            &&& exists|i: int| 0 <= i < pts@.len() && (#[trigger] pts@[i]).y == b.1.y
        },
{
    if pts.len() == 0 {
        return Option::None;
    }
    let first = pts[0];
    let mut lo = first;
    let mut hi = first;
    let mut i: usize = 1;
    while i < pts.len()
        invariant
            1 <= i <= pts@.len(),
            forall|k: int| 0 <= k < i ==> lo.x <= (#[trigger] pts@[k]).x && lo.y <= pts@[k].y
                && pts@[k].x <= hi.x && pts@[k].y <= hi.y,
            exists|k: int| 0 <= k < i && (#[trigger] pts@[k]).x == lo.x,
            exists|k: int| 0 <= k < i && (#[trigger] pts@[k]).y == lo.y,
            exists|k: int| 0 <= k < i && (#[trigger] pts@[k]).x == hi.x,
            exists|k: int| 0 <= k < i && (#[trigger] pts@[k]).y == hi.y,
        decreases pts@.len() - i,
    {
        let p = pts[i];
        if p.x < lo.x {
            lo.x = p.x;
        }
        if p.y < lo.y {
            lo.y = p.y;
        }
        if p.x > hi.x {
            hi.x = p.x;
        }
        if p.y > hi.y {
            hi.y = p.y;
        }
        i += 1;
    }
    Option::Some((lo, hi))
}

} // verus!
