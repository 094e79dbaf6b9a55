//! Projects geodetic points onto a Euclidean plane. The top-left of the
//! bounding rectangle is (0, 0) and the plane grows to the right and down
//! (screen-drawing order, not Cartesian), in units of millimeters.
//!
//! Geodetic coordinates are integers in microdegrees (1e-6 degrees, roughly
//! 10 cm of longitude), which fixes the rounding precision of the projection;
//! plane coordinates are integers in millimeters. Both axes are mapped by
//! linear interpolation between the rectangle's corners; the plane's width
//! and height are supplied by the caller (the geodesic lengths of the
//! rectangle's top and left edges, which only a geodesy library can compute).

use vstd::prelude::*;
use vstd::arithmetic::div_mod::*;
use crate::geom::{COORD_LIMIT, Pt, Polyline, Polygon, in_bounds, abs_i, fdiv_i128};

verus! {

/// Largest admissible longitude magnitude, in microdegrees.
pub const MAX_LON: i64 = 180_000_000;

/// Largest admissible latitude magnitude, in microdegrees.
pub const MAX_LAT: i64 = 90_000_000;

/// Slack band around the projected rectangle within which reprojection is
/// still defined: derived geometry (thickened-strip corners) may overhang
/// the batch rectangle, by about one kilometer at most.
pub const PLANE_SLACK: i64 = 0x10_0000;

/// A projection context: one geodetic bounding rectangle together with the
/// plane it maps onto. Derived once per batch and shared by reference.
pub struct Mercator {
    /// West edge of the bounding rectangle, microdegrees.
    pub min_lon: i64,
    /// South edge of the bounding rectangle, microdegrees.
    pub min_lat: i64,
    /// Longitude extent, microdegrees.
    pub lon_span: i64,
    /// Latitude extent, microdegrees.
    pub lat_span: i64,
    /// Plane width in millimeters (geodesic length of the rectangle's top edge).
    pub width: i64,
    /// Plane height in millimeters (geodesic length of the rectangle's left edge).
    pub height: i64,
}

impl Mercator {
    pub open spec fn wf(self) -> bool {
        &&& 1 <= self.lon_span
        &&& 1 <= self.lat_span
        &&& 1 <= self.width <= COORD_LIMIT
        &&& 1 <= self.height <= COORD_LIMIT
        &&& -MAX_LON <= self.min_lon
        &&& self.min_lon + self.lon_span <= MAX_LON
        &&& -MAX_LAT <= self.min_lat
        &&& self.min_lat + self.lat_span <= MAX_LAT
    }

    /// A geodetic point inside the source bounding rectangle.
    pub open spec fn geo_in_rect(self, g: Pt) -> bool {
        &&& self.min_lon <= g.x <= self.min_lon + self.lon_span
        &&& self.min_lat <= g.y <= self.min_lat + self.lat_span
    }

    /// A plane point inside the projected rectangle.
    pub open spec fn plane_in_rect(self, p: Pt) -> bool {
        &&& 0 <= p.x <= self.width
        &&& 0 <= p.y <= self.height
    }

    /// A plane point within the slack band around the projected rectangle.
    pub open spec fn plane_near_rect(self, p: Pt) -> bool {
        &&& -PLANE_SLACK <= p.x <= self.width + PLANE_SLACK
        &&& -PLANE_SLACK <= p.y <= self.height + PLANE_SLACK
    }

    /// Build a projection for the given bounding rectangle and plane extent.
    /// Fails exactly when the rectangle or the plane is empty or degenerate.
    pub fn from(
        min_lon: i64,
        min_lat: i64,
        max_lon: i64,
        max_lat: i64,
        width: i64,
        height: i64,
    ) -> (r: Option<Mercator>)
        ensures
            r is Some <==> {
                &&& min_lon < max_lon
                &&& min_lat < max_lat
                &&& 1 <= width <= COORD_LIMIT
                &&& 1 <= height <= COORD_LIMIT
                &&& -MAX_LON <= min_lon
                &&& max_lon <= MAX_LON
                &&& -MAX_LAT <= min_lat
                &&& max_lat <= MAX_LAT
            },
            r matches Some(m) ==> m == (Mercator {
                min_lon,
                min_lat,
                lon_span: (max_lon - min_lon) as i64,
                lat_span: (max_lat - min_lat) as i64,
                width,
                height,
            }) && m.wf(),
    {
        if min_lon < max_lon && min_lat < max_lat && 1 <= width && width <= COORD_LIMIT && 1
            <= height && height <= COORD_LIMIT && -MAX_LON <= min_lon && max_lon <= MAX_LON
            && -MAX_LAT <= min_lat && max_lat <= MAX_LAT {
            Some(
                Mercator {
                    min_lon,
                    min_lat,
                    lon_span: max_lon - min_lon,
                    lat_span: max_lat - min_lat,
                    width,
                    height,
                },
            )
        } else {
            None
        }
    }

    /// Forward interpolation of one axis: `a` of `s` geodetic units mapped
    /// onto `w` plane units, rounding down.
    pub open spec fn fwd_interp(a: int, s: int, w: int) -> int {
        a * w / s
    }

    /// Inverse interpolation of one axis, rounding to the nearest geodetic
    /// unit (halves up).
    pub open spec fn back_interp(x: int, s: int, w: int) -> int {
        (2 * (x * s) + w) / (2 * w)
    }

    pub open spec fn to_plane_spec(self, g: Pt) -> Pt {
        Pt {
            x: Self::fwd_interp(
                g.x - self.min_lon,
                self.lon_span as int,
                self.width as int,
            ) as i64,
            y: (self.height - Self::fwd_interp(
                g.y - self.min_lat,
                self.lat_span as int,
                self.height as int,
            )) as i64,
        }
    }

    pub open spec fn to_geodetic_spec(self, p: Pt) -> Pt {
        Pt {
            x: (self.min_lon + Self::back_interp(
                p.x as int,
                self.lon_span as int,
                self.width as int,
            )) as i64,
            y: (self.min_lat + Self::back_interp(
                self.height - p.y,
                self.lat_span as int,
                self.height as int,
            )) as i64,
        }
    }

    /// Project one geodetic point onto the plane. The northernmost latitude
    /// maps to y = 0.
    pub fn pt_to_mercator(&self, g: Pt) -> (r: Pt)
        requires
            self.wf(),
            self.geo_in_rect(g),
        ensures
            r == self.to_plane_spec(g),
            self.plane_in_rect(r),
            in_bounds(r, COORD_LIMIT),
    {
        let x = fwd_interp_exec(g.x - self.min_lon, self.lon_span, self.width);
        let y = fwd_interp_exec(g.y - self.min_lat, self.lat_span, self.height);
        Pt { x, y: self.height - y }
    }

    /// Project one plane point back to geodetic coordinates, rounded to the
    /// nearest microdegree. Points slightly outside the rectangle (derived
    /// geometry overhanging it) reproject by the same formula; a point
    /// inside it lands inside the source rectangle.
    pub fn pt_to_wgs84(&self, p: Pt) -> (r: Pt)
        requires
            self.wf(),
            self.plane_near_rect(p),
        ensures
            r == self.to_geodetic_spec(p),
            self.plane_in_rect(p) ==> self.geo_in_rect(r),
    {
        let x = back_interp_exec(p.x, self.lon_span, self.width);
        let y = back_interp_exec(self.height - p.y, self.lat_span, self.height);
        Pt { x: self.min_lon + x, y: self.min_lat + y }
    }
}

impl Mercator {
    /// Every point of a chain lies inside the source rectangle.
    pub open spec fn geo_pts_in_rect(self, s: Seq<Pt>) -> bool {
        forall|i: int| 0 <= i < s.len() ==> self.geo_in_rect(#[trigger] s[i])
    }

    /// Every point of a chain lies inside the projected rectangle.
    pub open spec fn plane_pts_in_rect(self, s: Seq<Pt>) -> bool {
        forall|i: int| 0 <= i < s.len() ==> self.plane_in_rect(#[trigger] s[i])
    }

    /// Every ring of the polygon lies inside the source rectangle.
    pub open spec fn geo_polygon_in_rect(self, pg: Polygon) -> bool {
        &&& self.geo_pts_in_rect(pg.exterior@)
        &&& forall|h: int| 0 <= h < pg.holes@.len() ==> self.geo_pts_in_rect(
            (#[trigger] pg.holes@[h])@,
        )
    }

    /// Every ring of the polygon lies inside the projected rectangle.
    pub open spec fn plane_polygon_in_rect(self, pg: Polygon) -> bool {
        &&& self.plane_pts_in_rect(pg.exterior@)
        &&& forall|h: int| 0 <= h < pg.holes@.len() ==> self.plane_pts_in_rect(
            (#[trigger] pg.holes@[h])@,
        )
    }

    /// A chain projected onto the plane, point by point.
    pub open spec fn to_plane_line_spec(self, s: Seq<Pt>) -> Seq<Pt> {
        s.map_values(|p: Pt| self.to_plane_spec(p))
    }

    /// A chain projected back to geodetic coordinates, point by point.
    pub open spec fn to_geodetic_line_spec(self, s: Seq<Pt>) -> Seq<Pt> {
        s.map_values(|p: Pt| self.to_geodetic_spec(p))
    }

    fn line_to_mercator(&self, l: &Polyline) -> (r: Polyline)
        requires
            self.wf(),
            self.geo_pts_in_rect(l@),
        ensures
            r@ == self.to_plane_line_spec(l@),
            self.plane_pts_in_rect(r@),
    {
        let mut pts: Vec<Pt> = Vec::new();
        let mut i: usize = 0;
        while i < l.pts.len()
            invariant
                0 <= i <= l@.len(),
                self.wf(),
                self.geo_pts_in_rect(l@),
                pts@ == self.to_plane_line_spec(l@).subrange(0, i as int),
                self.plane_pts_in_rect(pts@),
            decreases l@.len() - i,
        {
            let ghost prev = pts@;
            pts.push(self.pt_to_mercator(l.pts[i]));
            proof {
                assert(pts@ =~= self.to_plane_line_spec(l@).subrange(0, i as int + 1));
            }
            i += 1;
        }
        proof {
            assert(pts@ =~= self.to_plane_line_spec(l@));
        }
        Polyline { pts }
    }

    fn line_to_wgs84(&self, l: &Polyline) -> (r: Polyline)
        requires
            self.wf(),
            self.plane_pts_in_rect(l@),
        ensures
            r@ == self.to_geodetic_line_spec(l@),
            self.geo_pts_in_rect(r@),
    {
        let mut pts: Vec<Pt> = Vec::new();
        let mut i: usize = 0;
        while i < l.pts.len()
            invariant
                0 <= i <= l@.len(),
                self.wf(),
                self.plane_pts_in_rect(l@),
                pts@ == self.to_geodetic_line_spec(l@).subrange(0, i as int),
                self.geo_pts_in_rect(pts@),
            decreases l@.len() - i,
        {
            pts.push(self.pt_to_wgs84(l.pts[i]));
            proof {
                assert(pts@ =~= self.to_geodetic_line_spec(l@).subrange(0, i as int + 1));
            }
            i += 1;
        }
        proof {
            assert(pts@ =~= self.to_geodetic_line_spec(l@));
        }
        Polyline { pts }
    }

    /// Project a whole polygon onto the plane.
    pub fn to_mercator(&self, pg: &Polygon) -> (r: Polygon)
        requires
            self.wf(),
            self.geo_polygon_in_rect(*pg),
        ensures
            r.exterior@ == self.to_plane_line_spec(pg.exterior@),
            r.holes@.len() == pg.holes@.len(),
            forall|h: int| 0 <= h < pg.holes@.len() ==> (#[trigger] r.holes@[h])@
                == self.to_plane_line_spec(pg.holes@[h]@),
            self.plane_polygon_in_rect(r),
    {
        let exterior = self.line_to_mercator(&pg.exterior);
        let mut holes: Vec<Polyline> = Vec::new();
        let mut h: usize = 0;
        while h < pg.holes.len()
            invariant
                0 <= h <= pg.holes@.len(),
                self.wf(),
                self.geo_polygon_in_rect(*pg),
                holes@.len() == h,
                forall|m: int| 0 <= m < h ==> (#[trigger] holes@[m])@ == self.to_plane_line_spec(
                    pg.holes@[m]@,
                ),
                forall|m: int| 0 <= m < h ==> self.plane_pts_in_rect((#[trigger] holes@[m])@),
            decreases pg.holes@.len() - h,
        {
            holes.push(self.line_to_mercator(&pg.holes[h]));
            h += 1;
        }
        Polygon { exterior, holes }
    }

    /// Project a whole polygon back to geodetic coordinates.
    pub fn to_wgs84(&self, pg: &Polygon) -> (r: Polygon)
        requires
            self.wf(),
            self.plane_polygon_in_rect(*pg),
        ensures
            r.exterior@ == self.to_geodetic_line_spec(pg.exterior@),
            r.holes@.len() == pg.holes@.len(),
            forall|h: int| 0 <= h < pg.holes@.len() ==> (#[trigger] r.holes@[h])@
                == self.to_geodetic_line_spec(pg.holes@[h]@),
            self.geo_polygon_in_rect(r),
    {
        let exterior = self.line_to_wgs84(&pg.exterior);
        let mut holes: Vec<Polyline> = Vec::new();
        let mut h: usize = 0;
        while h < pg.holes.len()
            invariant
                0 <= h <= pg.holes@.len(),
                self.wf(),
                self.plane_polygon_in_rect(*pg),
                holes@.len() == h,
                forall|m: int| 0 <= m < h ==> (#[trigger] holes@[m])@
                    == self.to_geodetic_line_spec(pg.holes@[m]@),
                forall|m: int| 0 <= m < h ==> self.geo_pts_in_rect((#[trigger] holes@[m])@),
            decreases pg.holes@.len() - h,
        {
            holes.push(self.line_to_wgs84(&pg.holes[h]));
            h += 1;
        }
        Polygon { exterior, holes }
    }

    /// Project a polygon onto the plane, replacing it.
    pub fn to_mercator_in_place(&self, pg: &mut Polygon)
        requires
            self.wf(),
            self.geo_polygon_in_rect(*old(pg)),
        ensures
            final(pg).exterior@ == self.to_plane_line_spec(old(pg).exterior@),
            final(pg).holes@.len() == old(pg).holes@.len(),
            forall|h: int| 0 <= h < old(pg).holes@.len() ==> (#[trigger] final(pg).holes@[h])@
                == self.to_plane_line_spec(old(pg).holes@[h]@),
    {
        let mapped = self.to_mercator(pg);
        *pg = mapped;
    }

    /// Project a polygon back to geodetic coordinates, replacing it.
    pub fn to_wgs84_in_place(&self, pg: &mut Polygon)
        requires
            self.wf(),
            self.plane_polygon_in_rect(*old(pg)),
        ensures
            final(pg).exterior@ == self.to_geodetic_line_spec(old(pg).exterior@),
            final(pg).holes@.len() == old(pg).holes@.len(),
            forall|h: int| 0 <= h < old(pg).holes@.len() ==> (#[trigger] final(pg).holes@[h])@
                == self.to_geodetic_line_spec(old(pg).holes@[h]@),
    {
        let mapped = self.to_wgs84(pg);
        *pg = mapped;
    }
}

/// Compute `a * w / s` exactly, for one interpolation axis.
fn fwd_interp_exec(a: i64, s: i64, w: i64) -> (r: i64)
    requires
        0 <= a <= s,
        1 <= s <= 2 * MAX_LON,
        1 <= w <= COORD_LIMIT,
    ensures
        r == Mercator::fwd_interp(a as int, s as int, w as int),
        0 <= r <= w,
{
    proof {
        assert((a as int) * (w as int) <= (2 * MAX_LON as int) * (COORD_LIMIT as int))
            by (nonlinear_arith)
            requires 0 <= a <= 2 * MAX_LON as int, 0 <= w <= COORD_LIMIT as int,
        ;
    }
    let q: u128 = (a as u128) * (w as u128) / (s as u128);
    proof {
        lemma_fwd_interp_bounds(a as int, s as int, w as int);
    }
    q as i64
}

proof fn lemma_fwd_interp_bounds(a: int, s: int, w: int)
    requires
        0 <= a <= s,
        1 <= s,
        1 <= w,
    ensures
        0 <= Mercator::fwd_interp(a, s, w) <= w,
{
    assert(a * w >= 0) by (nonlinear_arith)
        requires a >= 0, w >= 0,
    ;
    assert(a * w <= s * w) by (nonlinear_arith)
        requires a <= s, w >= 0,
    ;
    lemma_div_is_ordered(a * w, s * w, s);
    lemma_div_multiples_vanish(w, s);
    lemma_div_pos_is_pos(a * w, s);
}

/// Compute `round((x / w) * s)` exactly, for one inverse interpolation
/// axis; defined on the slack band around `[0, w]` as well.
fn back_interp_exec(x: i64, s: i64, w: i64) -> (r: i64)
    requires
        -PLANE_SLACK <= x <= w + PLANE_SLACK,
        1 <= s,
        1 <= w <= COORD_LIMIT,
        s <= 2 * MAX_LON,
    ensures
        r == Mercator::back_interp(x as int, s as int, w as int),
        0 <= x <= w ==> 0 <= r <= s,
        -0x1000_0000_0000_0000 <= r <= 0x1000_0000_0000_0000,
{
    proof {
        assert(abs_i((x as int) * (s as int)) <= ((COORD_LIMIT + PLANE_SLACK) as int) * ((2
            * MAX_LON) as int)) by (nonlinear_arith)
            requires
                -(PLANE_SLACK as int) <= x as int <= (COORD_LIMIT + PLANE_SLACK) as int,
                0 <= s as int <= (2 * MAX_LON) as int,
        ;
    }
    let prod: i128 = (x as i128) * (s as i128);
    let num: i128 = 2 * prod + (w as i128);
    let q = fdiv_i128(num, 2 * (w as i128));
    proof {
        if 0 <= x && x <= w {
            lemma_back_interp_bounds(x as int, s as int, w as int);
        }
    }
    q as i64
}

proof fn lemma_back_interp_bounds(x: int, s: int, w: int)
    requires
        0 <= x <= w,
        1 <= s,
        1 <= w,
    ensures
        0 <= Mercator::back_interp(x, s, w) <= s,
{
    let n = 2 * (x * s) + w;
    assert(x * s >= 0) by (nonlinear_arith)
        requires x >= 0, s >= 0,
    ;
    lemma_div_pos_is_pos(n, 2 * w);
    assert(n < (2 * w) * (s + 1)) by (nonlinear_arith)
        requires x <= w, s >= 1, w >= 1, n == 2 * (x * s) + w,
    ;
    lemma_multiply_divide_lt(n, 2 * w, s + 1);
    assert(Mercator::back_interp(x, s, w) == n / (2 * w));
}

/// One axis of the projection round-trip: interpolating forward and back
/// loses at most one geodetic unit when the plane resolves at least as
/// finely as the geodetic grid (`w >= s`).
pub proof fn lemma_round_trip_axis(a: int, s: int, w: int)
    requires
        0 <= a <= s,
        1 <= s <= w,
    ensures
        a - 1 <= Mercator::back_interp(Mercator::fwd_interp(a, s, w), s, w) <= a,
{
    let x = Mercator::fwd_interp(a, s, w);
    assert(x == a * w / s);
    lemma_fundamental_div_mod(a * w, s);
    let r = a * w - s * x;
    lemma_mod_bound(a * w, s);
    assert(a * w % s == r);
    let n = 2 * (x * s) + w;
    assert(Mercator::back_interp(x, s, w) == n / (2 * w));
    assert(n == 2 * (a * w) - 2 * r + w) by (nonlinear_arith)
        requires a * w == s * x + r, n == 2 * (x * s) + w,
    ;
    // Upper bound: n < (2 * w) * (a + 1), so n / (2 * w) <= a.
    assert(n < (2 * w) * (a + 1)) by (nonlinear_arith)
        requires n == 2 * (a * w) - 2 * r + w, r >= 0, w >= 1,
    ;
    lemma_multiply_divide_lt(n, 2 * w, a + 1);
    // Lower bound: n >= (2 * w) * (a - 1), so n / (2 * w) >= a - 1.
    assert(n >= (2 * w) * (a - 1)) by (nonlinear_arith)
        requires n == 2 * (a * w) - 2 * r + w, r <= w - 1, w >= 1,
    ;
    lemma_div_is_ordered((2 * w) * (a - 1), n, 2 * w);
    lemma_div_multiples_vanish(a - 1, 2 * w);
}

/// Round-trip law: for any geodetic point inside the projection's source
/// rectangle, projecting onto the plane and back returns the same point to
/// within one microdegree on each axis, provided the plane resolves at least
/// as finely as the geodetic grid (one millimeter per microdegree or finer).
pub proof fn lemma_round_trip(m: Mercator, g: Pt)
    requires
        m.wf(),
        m.lon_span <= m.width,
        m.lat_span <= m.height,
        m.geo_in_rect(g),
    ensures
        ({
            let back = m.to_geodetic_spec(m.to_plane_spec(g));
            g.x - 1 <= back.x <= g.x && g.y - 1 <= back.y <= g.y
        }),
{
    let a = g.x - m.min_lon;
    let b = g.y - m.min_lat;
    lemma_fwd_interp_bounds(a, m.lon_span as int, m.width as int);
    lemma_fwd_interp_bounds(b, m.lat_span as int, m.height as int);
    lemma_back_interp_bounds(
        Mercator::fwd_interp(a, m.lon_span as int, m.width as int),
        m.lon_span as int,
        m.width as int,
    );
    lemma_back_interp_bounds(
        Mercator::fwd_interp(b, m.lat_span as int, m.height as int),
        m.lat_span as int,
        m.height as int,
    );
    lemma_round_trip_axis(a, m.lon_span as int, m.width as int);
    lemma_round_trip_axis(b, m.lat_span as int, m.height as int);
}

} // verus!
