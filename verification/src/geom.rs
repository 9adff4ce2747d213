//! Geographic coordinates, bounding boxes, and the linear geo/pixel
//! projection used inside one tile.
//!
//! Coordinates are integers in units of 1e-7 degree, the resolution of the
//! upstream footprint data. A tile's canvas maps longitude linearly across
//! `[west, east] -> [0, width]` and latitude across `[north, south] ->
//! [0, height]`: latitude grows downward in pixel space, a fixed axis flip.

use vstd::prelude::*;
use vstd::arithmetic::div_mod::{
    lemma_fundamental_div_mod, lemma_div_pos_is_pos, lemma_div_is_ordered,
    lemma_div_nonincreasing, lemma_div_multiples_vanish,
};
use vstd::arithmetic::mul::lemma_mul_inequality;

verus! {

/// One 1e-7-degree unit; 90 degrees of latitude in those units.
pub const LAT_LIMIT_E7: i64 = 900_000_000;
/// 180 degrees of longitude in 1e-7-degree units.
pub const LON_LIMIT_E7: i64 = 1_800_000_000;
/// Largest canvas extent (pixels per axis) the projection accepts.
pub const MAX_EXTENT: u32 = 1_048_576;

/// A WGS84 position in units of 1e-7 degree.
#[derive(Clone, Copy, Debug, PartialEq, Eq, Structural)]
pub struct GeoCoordinate {
    pub lon_e7: i64,
    pub lat_e7: i64,
}

impl GeoCoordinate {
    /// Within the valid degree ranges.
    pub open spec fn wf(self) -> bool {
        &&& -LON_LIMIT_E7 <= self.lon_e7 <= LON_LIMIT_E7
        &&& -LAT_LIMIT_E7 <= self.lat_e7 <= LAT_LIMIT_E7
    }

    pub fn new(lon_e7: i64, lat_e7: i64) -> (r: Self)
        ensures
            r.lon_e7 == lon_e7,
            r.lat_e7 == lat_e7,
    {
        GeoCoordinate { lon_e7, lat_e7 }
    }
}

/// An axis-aligned geographic region, in units of 1e-7 degree.
/// East/west wrap is not supported: `west < east` is required, as is
/// `south < north`.
#[derive(Clone, Copy, Debug, PartialEq, Eq, Structural)]
pub struct GeoBox {
    pub north_e7: i64,
    pub south_e7: i64,
    pub west_e7: i64,
    pub east_e7: i64,
}

impl GeoBox {
    pub open spec fn wf(self) -> bool {
        &&& -LAT_LIMIT_E7 <= self.south_e7 < self.north_e7 <= LAT_LIMIT_E7
        &&& -LON_LIMIT_E7 <= self.west_e7 < self.east_e7 <= LON_LIMIT_E7
    }

    /// Construct a box, rejecting degenerate or out-of-range bounds.
    pub fn new(north_e7: i64, south_e7: i64, west_e7: i64, east_e7: i64) -> (r: Option<GeoBox>)
        ensures
            match r {
                Some(b) => {
                    &&& b.wf()
                    &&& b.north_e7 == north_e7
                    &&& b.south_e7 == south_e7
                    &&& b.west_e7 == west_e7
                    &&& b.east_e7 == east_e7
                },
                None => !(GeoBox { north_e7, south_e7, west_e7, east_e7 }).wf(),
            },
    {
        if -LAT_LIMIT_E7 <= south_e7 && south_e7 < north_e7 && north_e7 <= LAT_LIMIT_E7
            && -LON_LIMIT_E7 <= west_e7 && west_e7 < east_e7 && east_e7 <= LON_LIMIT_E7
        {
            Some(GeoBox { north_e7, south_e7, west_e7, east_e7 })
        } else {
            None
        }
    }

    /// True when the two boxes share at least one interior point: all four
    /// comparisons strict, so touching edges do not count as overlap.
    pub open spec fn spec_overlaps(self, other: GeoBox) -> bool {
        &&& self.west_e7 < other.east_e7
        &&& self.east_e7 > other.west_e7
        &&& self.north_e7 > other.south_e7
        &&& self.south_e7 < other.north_e7
    }

    pub fn overlaps(&self, other: &GeoBox) -> (r: bool)
        ensures
            r == self.spec_overlaps(*other),
    {
        self.west_e7 < other.east_e7 && self.east_e7 > other.west_e7
            && self.north_e7 > other.south_e7 && self.south_e7 < other.north_e7
    }

    /// True when the coordinate lies inside the box (closed on all edges).
    pub open spec fn spec_contains(self, c: GeoCoordinate) -> bool {
        &&& self.west_e7 <= c.lon_e7 <= self.east_e7
        &&& self.south_e7 <= c.lat_e7 <= self.north_e7
    }

    pub fn contains(&self, c: &GeoCoordinate) -> (r: bool)
        ensures
            r == self.spec_contains(*c),
    {
        self.west_e7 <= c.lon_e7 && c.lon_e7 <= self.east_e7
            && self.south_e7 <= c.lat_e7 && c.lat_e7 <= self.north_e7
    }
}

/// Linear interpolation of `v` from the source span `[lo, hi]` onto
/// `[0, extent]`, rounding toward negative infinity.
pub open spec fn interp(v: int, lo: int, hi: int, extent: int) -> int {
    (v - lo) * extent / (hi - lo)
}

/// Inverse of `interp`: the source-side value of pixel `p`.
pub open spec fn interp_inv(p: int, lo: int, hi: int, extent: int) -> int {
    lo + p * (hi - lo) / extent
}

/// The largest magnitude a saturated pixel coordinate can take. Kept
/// well below the `i32` extremes so that pixel arithmetic downstream
/// (differences of two coordinates, one-past-the-end steps) stays inside
/// `i32`.
pub const PIXEL_BOUND: i32 = 0x3FFF_FFFF;

/// Saturate an `int` into `[-PIXEL_BOUND, PIXEL_BOUND]`.
pub open spec fn clamp_pixel(v: int) -> int {
    if v < -PIXEL_BOUND {
        -PIXEL_BOUND as int
    } else if v > PIXEL_BOUND as int {
        PIXEL_BOUND as int
    } else {
        v
    }
}

/// A non-degenerate source span within twice the coordinate ranges, and a
/// positive pixel extent no larger than `MAX_EXTENT`.
pub open spec fn span_args_wf(lo: int, hi: int, extent: int) -> bool {
    &&& lo < hi
    &&& -2 * LON_LIMIT_E7 <= lo <= 2 * LON_LIMIT_E7
    &&& -2 * LON_LIMIT_E7 <= hi <= 2 * LON_LIMIT_E7
    &&& 0 < extent <= MAX_EXTENT
}

/// The arguments every axis projection accepts: a well-formed span and a
/// value within twice the coordinate ranges (a vertex may lie well outside
/// the tile being projected into).
pub open spec fn axis_args_wf(v: int, lo: int, hi: int, extent: int) -> bool {
    &&& span_args_wf(lo, hi, extent)
    &&& -2 * LON_LIMIT_E7 <= v <= 2 * LON_LIMIT_E7
}

/// Interpolate one axis: the exact floor of `(v - lo) * extent / (hi - lo)`.
/// `v` may lie outside `[lo, hi]`; the result is then outside `[0, extent]`.
pub fn project_axis(v: i64, lo: i64, hi: i64, extent: u32) -> (p: i64)
    requires
        axis_args_wf(v as int, lo as int, hi as int, extent as int),
    ensures
        p == interp(v as int, lo as int, hi as int, extent as int),
{
    let s = (hi - lo) as u64;
    let e = extent as u64;
    if v >= lo {
        let d = (v - lo) as u64;
        proof {
            lemma_mul_bound_nonneg(d as int, e as int, s as int);
        }
        let num = d * e;
        let q = num / s;
        q as i64
    } else {
        let d = (lo - v) as u64;
        proof {
            lemma_mul_bound_nonneg(d as int, e as int, s as int);
            lemma_neg_div_is_neg_ceil((d * e) as int, s as int);
            assert((v - lo) * extent == -((d * e) as int)) by (nonlinear_arith)
                requires d == lo - v, e == extent, d >= 0;
        }
        let num = d * e;
        let q = (num + (s - 1)) / s;
        -(q as i64)
    }
}

/// Map a pixel value back to the source span: the exact floor of
/// `lo + p * (hi - lo) / extent`. Only pixels in `[0, extent]` are taken;
/// that is all the inverse mapping is specified for.
pub fn unproject_axis(p: i64, lo: i64, hi: i64, extent: u32) -> (v: i64)
    requires
        span_args_wf(lo as int, hi as int, extent as int),
        0 <= p <= extent,
    ensures
        v == interp_inv(p as int, lo as int, hi as int, extent as int),
        lo <= v <= hi,
{
    let s = (hi - lo) as u64;
    let e = extent as u64;
    proof {
        lemma_mul_bound_nonneg(p as int, s as int, e as int);
        lemma_mul_inequality(p as int, e as int, s as int);
        lemma_div_is_ordered((p * s) as int, (e * s) as int, e as int);
        lemma_div_multiples_vanish(s as int, e as int);
    }
    let num = (p as u64) * s;
    let q = num / e;
    lo + (q as i64)
}

/// Bounds that let the axis arithmetic stay inside `u64`/`i64`: the
/// product of a span-sized `a` and an extent-or-span-sized `b` is
/// nonnegative and under `2^60`, and its quotient by positive `c` no
/// larger than the product.
proof fn lemma_mul_bound_nonneg(a: int, b: int, c: int)
    requires
        0 <= a <= 4 * LON_LIMIT_E7,
        0 <= b <= 4 * LON_LIMIT_E7,
        a <= MAX_EXTENT || b <= MAX_EXTENT,
        0 < c,
    ensures
        0 <= a * b < 0x1000_0000_0000_0000,
        0 <= a * b / c <= a * b,
        0 <= (a * b + c - 1) / c <= a * b + c - 1,
{
    assert(0 <= a * b < 0x1000_0000_0000_0000) by (nonlinear_arith)
        requires
            0 <= a <= 4 * LON_LIMIT_E7,
            0 <= b <= 4 * LON_LIMIT_E7,
            a <= MAX_EXTENT || b <= MAX_EXTENT;
    lemma_div_pos_is_pos(a * b, c);
    lemma_div_nonincreasing(a * b, c);
    lemma_div_pos_is_pos(a * b + c - 1, c);
    lemma_div_nonincreasing(a * b + c - 1, c);
}

/// Floor division of a nonpositive numerator `-n` by positive `s` equals
/// the negated ceiling `-((n + s - 1) / s)`.
proof fn lemma_neg_div_is_neg_ceil(n: int, s: int)
    requires
        0 <= n,
        0 < s,
    ensures
        (n + s - 1) / s >= 0,
        -n / s == -((n + s - 1) / s),
{
    lemma_div_pos_is_pos(n + s - 1, s);
    lemma_fundamental_div_mod(n + s - 1, s);
    lemma_fundamental_div_mod(-n, s);
    let c = (n + s - 1) / s;
    let f = -n / s;
    let rc = (n + s - 1) % s;
    let rf = -n % s;
    assert(0 <= rc < s);
    assert(0 <= rf < s);
    // n + s - 1 == s * c + rc  and  -n == s * f + rf;
    // adding gives s - 1 == s * (c + f) + rc + rf with 0 <= rc + rf <= 2s - 2,
    // which forces c + f == 0.
    assert(s * c + s * f == s * (c + f)) by (nonlinear_arith);
    assert(s * (c + f) == s - 1 - rc - rf);
    assert(c + f == 0) by (nonlinear_arith)
        requires s * (c + f) == s - 1 - rc - rf, 0 <= rc < s, 0 <= rf < s, 0 < s;
}

/// Saturate a 64-bit value into the pixel coordinate range.
pub fn saturate_pixel(v: i64) -> (r: i32)
    ensures
        r == clamp_pixel(v as int),
        -PIXEL_BOUND <= r <= PIXEL_BOUND,
{
    if v < -(PIXEL_BOUND as i64) {
        -PIXEL_BOUND
    } else if v > PIXEL_BOUND as i64 {
        PIXEL_BOUND
    } else {
        v as i32
    }
}

/// The pixel a coordinate projects to on a tile whose geographic extent is
/// `b` and whose canvas is `width * height` pixels. Longitude interpolates
/// across `[west, east] -> [0, width]`; latitude across `[north, south] ->
/// [0, height]`, so larger latitudes give smaller pixel rows. Coordinates
/// outside `b` are not rejected: the result is then outside the canvas
/// (saturated into the `i32` range), and callers accept visual clipping.
pub open spec fn spec_project_lon(c: GeoCoordinate, b: GeoBox, width: int) -> int {
    interp(c.lon_e7 as int, b.west_e7 as int, b.east_e7 as int, width)
}

/// The pixel row a coordinate projects to; see `spec_project_lon`.
pub open spec fn spec_project_lat(c: GeoCoordinate, b: GeoBox, height: int) -> int {
    interp(b.north_e7 - c.lat_e7, 0, b.north_e7 - b.south_e7, height)
}

pub fn project_to_pixel(c: &GeoCoordinate, b: &GeoBox, width: u32, height: u32) -> (r: (
    i32,
    i32,
))
    requires
        c.wf(),
        b.wf(),
        0 < width <= MAX_EXTENT,
        0 < height <= MAX_EXTENT,
    ensures
        r.0 == clamp_pixel(spec_project_lon(*c, *b, width as int)),
        r.1 == clamp_pixel(spec_project_lat(*c, *b, height as int)),
        -PIXEL_BOUND <= r.0 <= PIXEL_BOUND,
        -PIXEL_BOUND <= r.1 <= PIXEL_BOUND,
{
    let px = project_axis(c.lon_e7, b.west_e7, b.east_e7, width);
    let py = project_axis(b.north_e7 - c.lat_e7, 0, b.north_e7 - b.south_e7, height);
    (saturate_pixel(px), saturate_pixel(py))
}

/// The inverse pixel-to-geo mapping, for pixels on the canvas.
pub fn pixel_to_geo(px: i64, py: i64, b: &GeoBox, width: u32, height: u32) -> (r: GeoCoordinate)
    requires
        b.wf(),
        0 < width <= MAX_EXTENT,
        0 < height <= MAX_EXTENT,
        0 <= px <= width,
        0 <= py <= height,
    ensures
        r.lon_e7 == interp_inv(px as int, b.west_e7 as int, b.east_e7 as int, width as int),
        r.lat_e7 == b.north_e7 - interp_inv(py as int, 0, b.north_e7 - b.south_e7, height as int),
        r.wf(),
    {
    let lon = unproject_axis(px, b.west_e7, b.east_e7, width);
    let lat_down = unproject_axis(py, 0, b.north_e7 - b.south_e7, height);
    GeoCoordinate { lon_e7: lon, lat_e7: b.north_e7 - lat_down }
}

/// One axis of the projection round trip: projecting a value inside the
/// span and mapping the pixel back moves the value by at most one pixel's
/// width of the span (stated multiplied through by `extent` to stay in
/// integers), and never past the value itself.
pub proof fn lemma_round_trip_axis(v: int, lo: int, hi: int, extent: int)
    requires
        lo <= v <= hi,
        lo < hi,
        0 < extent,
    ensures
        0 <= interp(v, lo, hi, extent) <= extent,
        interp_inv(interp(v, lo, hi, extent), lo, hi, extent) <= v,
        (v - interp_inv(interp(v, lo, hi, extent), lo, hi, extent)) * extent <= (hi - lo) + extent,
{
    let d = v - lo;
    let s = hi - lo;
    let e = extent;
    assert(0 <= d * e <= s * e) by (nonlinear_arith)
        requires 0 <= d <= s, 0 < e;
    let n1 = d * e;
    let p = n1 / s;
    lemma_div_pos_is_pos(n1, s);
    lemma_div_is_ordered(n1, s * e, s);
    lemma_div_multiples_vanish(e, s);
    assert(s * e == e * s) by (nonlinear_arith);
    assert(p <= e);
    lemma_fundamental_div_mod(n1, s);
    let r1 = n1 % s;
    assert(0 <= r1 < s);
    let n2 = p * s;
    assert(n2 == n1 - r1) by (nonlinear_arith)
        requires n1 == s * p + r1, n2 == p * s;
    let q = n2 / e;
    lemma_fundamental_div_mod(n2, e);
    let r2 = n2 % e;
    assert(0 <= r2 < e);
    // e * (d - q) == e*d - e*q == n1 - (n2 - r2) == r1 + r2
    assert(e * q == n2 - r2);
    assert(e * (d - q) == e * d - e * q) by (nonlinear_arith);
    assert(e * d == n1) by (nonlinear_arith)
        requires n1 == d * e;
    assert(e * (d - q) == r1 + r2);
    assert(d - q >= 0) by (nonlinear_arith)
        requires e * (d - q) == r1 + r2, 0 <= r1, 0 <= r2, 0 < e;
    assert((d - q) * e == e * (d - q)) by (nonlinear_arith);
    assert((d - q) * e <= s + e);
    assert(interp(v, lo, hi, extent) == p);
    assert(interp_inv(p, lo, hi, extent) == lo + q);
    assert(v - (lo + q) == d - q);
}

/// Projection round trip on a whole tile: for any coordinate within the
/// tile's geographic bounds, projecting to the pixel grid and mapping the
/// pixel back yields a coordinate within one pixel's width of the
/// original on each axis (stated multiplied through by the extent), and
/// the pixel itself lies on the canvas.
pub proof fn lemma_projection_round_trip(c: GeoCoordinate, b: GeoBox, width: int, height: int)
    requires
        b.wf(),
        b.spec_contains(c),
        0 < width,
        0 < height,
    ensures
        ({
            let px = spec_project_lon(c, b, width);
            let py = spec_project_lat(c, b, height);
            let lon_back = interp_inv(px, b.west_e7 as int, b.east_e7 as int, width);
            let lat_back = b.north_e7 - interp_inv(py, 0, b.north_e7 - b.south_e7, height);
            &&& 0 <= px <= width
            &&& 0 <= py <= height
            &&& lon_back <= c.lon_e7
            &&& (c.lon_e7 - lon_back) * width <= (b.east_e7 - b.west_e7) + width
            &&& c.lat_e7 <= lat_back
            &&& (lat_back - c.lat_e7) * height <= (b.north_e7 - b.south_e7) + height
        }),
{
    lemma_round_trip_axis(c.lon_e7 as int, b.west_e7 as int, b.east_e7 as int, width);
    lemma_round_trip_axis(b.north_e7 - c.lat_e7, 0, b.north_e7 - b.south_e7, height);
}

} // verus!
