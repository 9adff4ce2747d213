//! Tile addresses in the slippy-map scheme.
//!
//! An address `(zoom, x, y)` is valid when both indices are below
//! `2^zoom`. Computing which tile contains a coordinate, and which
//! geographic region a tile covers, involves the Mercator projection's
//! floating-point functions, which this library does not hold: callers
//! obtain raw indices and raw edge positions outside and hand them in as
//! plain integers. Everything from there on — bounds checking, clamping,
//! key packing — is verified here.

use vstd::prelude::*;
use vstd::arithmetic::power2::{pow2, lemma_pow2_strictly_increases, lemma2_to64};
use vstd::bits::{lemma_u32_shl_is_mul, lemma_u32_pow2_no_overflow};
use crate::geom::GeoBox;

verus! {

/// The deepest zoom level the library accepts; `2^30` tiles per axis.
pub const MAX_ZOOM: u8 = 30;

/// One slippy-map tile at a fixed zoom.
#[derive(Clone, Copy, Debug, PartialEq, Eq, Hash, Structural)]
pub struct TileAddress {
    pub zoom: u8,
    pub x: u32,
    pub y: u32,
}

impl TileAddress {
    /// The address invariant: both indices below `2^zoom`.
    pub open spec fn wf(self) -> bool {
        &&& self.zoom <= MAX_ZOOM
        &&& (self.x as nat) < pow2(self.zoom as nat)
        &&& (self.y as nat) < pow2(self.zoom as nat)
    }

    /// The packed map key of an address: `x` in the high half, `y` in the
    /// low half. Addresses of one run share their zoom, so the key
    /// determines the address.
    pub open spec fn spec_key(self) -> u64 {
        (self.x * 0x1_0000_0000 + self.y) as u64
    }

    pub fn key(&self) -> (k: u64)
        ensures
            k == self.spec_key(),
    {
        (self.x as u64) * 0x1_0000_0000 + (self.y as u64)
    }

    /// Construct a checked address.
    pub fn new(zoom: u8, x: u32, y: u32) -> (r: Option<TileAddress>)
        ensures
            match r {
                Some(a) => a.wf() && a.zoom == zoom && a.x == x && a.y == y,
                None => !(TileAddress { zoom, x, y }).wf(),
            },
    {
        if zoom > MAX_ZOOM {
            return None;
        }
        let side = side_len(zoom);
        if x < side && y < side {
            Some(TileAddress { zoom, x, y })
        } else {
            None
        }
    }
}

/// The number of tiles per axis at a zoom level.
pub fn side_len(zoom: u8) -> (r: u32)
    requires
        zoom <= MAX_ZOOM,
    ensures
        r == pow2(zoom as nat),
{
    proof {
        lemma_u32_pow2_no_overflow(zoom as nat);
        lemma_u32_shl_is_mul(1u32, zoom as u32);
    }
    1u32 << (zoom as u32)
}

/// Packed keys are injective on the indices: two valid addresses with one
/// key agree on `x` and `y`.
pub proof fn lemma_key_injective(a: TileAddress, b: TileAddress)
    requires
        a.wf(),
        b.wf(),
        a.spec_key() == b.spec_key(),
    ensures
        a.x == b.x,
        a.y == b.y,
{
    lemma_index_below_u32(a);
    lemma_index_below_u32(b);
    assert(a.x == b.x && a.y == b.y) by (nonlinear_arith)
        requires
            a.x * 0x1_0000_0000 + a.y == b.x * 0x1_0000_0000 + b.y,
            0 <= a.y < 0x1_0000_0000,
            0 <= b.y < 0x1_0000_0000,
            0 <= a.x,
            0 <= b.x;
}

/// A valid address's indices fit well below `2^32`, so key packing cannot
/// overflow or truncate.
pub proof fn lemma_index_below_u32(a: TileAddress)
    requires
        a.wf(),
    ensures
        (a.x as int) < 0x4000_0000,
        (a.y as int) < 0x4000_0000,
        a.spec_key() == a.x * 0x1_0000_0000 + a.y,
{
    lemma2_to64();
    if (a.zoom as nat) < 30 {
        lemma_pow2_strictly_increases(a.zoom as nat, 30);
    }
    assert(pow2(30) == 0x4000_0000);
}

/// Clamp a raw tile index into `[0, side)`.
pub open spec fn clamp_index(v: int, side: int) -> int {
    if v < 0 {
        0
    } else if v >= side {
        side - 1
    } else {
        v
    }
}

/// The address made from raw tile indices as the outside slippy-map
/// computation yields them. The raw indices of a position on the
/// antimeridian, or outside the projection's latitude range, can land one
/// past the edge; they are clamped into range, so the result always
/// satisfies the address invariant. Equal raw indices and zoom give equal
/// addresses.
pub open spec fn spec_tile_from_raw(zoom: u8, raw_x: u32, raw_y: u32) -> TileAddress {
    TileAddress {
        zoom,
        x: clamp_index(raw_x as int, pow2(zoom as nat) as int) as u32,
        y: clamp_index(raw_y as int, pow2(zoom as nat) as int) as u32,
    }
}

pub fn tile_from_raw_index(zoom: u8, raw_x: u32, raw_y: u32) -> (r: TileAddress)
    requires
        zoom <= MAX_ZOOM,
    ensures
        r == spec_tile_from_raw(zoom, raw_x, raw_y),
        r.wf(),
        r.zoom == zoom,
{
    let side = side_len(zoom);
    proof {
        vstd::arithmetic::power2::lemma_pow2_pos(zoom as nat);
    }
    let x = if raw_x >= side {
        side - 1
    } else {
        raw_x
    };
    let y = if raw_y >= side {
        side - 1
    } else {
        raw_y
    };
    TileAddress { zoom, x, y }
}

/// Raw-index addressing is deterministic and lands within the address
/// invariant whatever the raw indices are.
pub proof fn lemma_tile_addressing_deterministic(zoom: u8, rx1: u32, ry1: u32, rx2: u32, ry2: u32)
    requires
        zoom <= MAX_ZOOM,
        rx1 == rx2,
        ry1 == ry2,
    ensures
        spec_tile_from_raw(zoom, rx1, ry1) == spec_tile_from_raw(zoom, rx2, ry2),
        spec_tile_from_raw(zoom, rx1, ry1).wf(),
{
    vstd::arithmetic::power2::lemma_pow2_pos(zoom as nat);
    lemma2_to64();
    if (zoom as nat) < 30 {
        lemma_pow2_strictly_increases(zoom as nat, 30);
    }
}

/// The addresses of an axis-aligned rectangle of tiles between two
/// corners, both inclusive, column by column: all of `x0`'s column from
/// `y0` to `y1`, then the next. The prefetch sweep of an area of
/// interest walks this list.
pub fn tiles_in_rect(zoom: u8, x0: u32, x1: u32, y0: u32, y1: u32) -> (r: Vec<TileAddress>)
    requires
        zoom <= MAX_ZOOM,
        x0 <= x1,
        y0 <= y1,
        (x1 as nat) < pow2(zoom as nat),
        (y1 as nat) < pow2(zoom as nat),
        (x1 - x0 + 1) * (y1 - y0 + 1) <= usize::MAX,
    ensures
        r@.len() == (x1 - x0 + 1) * (y1 - y0 + 1),
        forall|i: int, j: int|
            0 <= i <= x1 - x0 && 0 <= j <= y1 - y0 ==> #[trigger] r@[i * (y1 - y0 + 1) + j]
                == (TileAddress { zoom, x: (x0 + i) as u32, y: (y0 + j) as u32 }),
        forall|t: int| 0 <= t < r@.len() ==> (#[trigger] r@[t]).wf(),
{
    proof {
        lemma2_to64();
        if (zoom as nat) < 30 {
            lemma_pow2_strictly_increases(zoom as nat, 30);
        }
    }
    let w = x1 - x0 + 1;
    let h = y1 - y0 + 1;
    let mut r: Vec<TileAddress> = Vec::new();
    let mut i: u32 = 0;
    while i < w
        invariant
            0 <= i <= w,
            w == x1 - x0 + 1,
            h == y1 - y0 + 1,
            zoom <= MAX_ZOOM,
            x0 <= x1,
            y0 <= y1,
            (x1 as nat) < pow2(zoom as nat),
            (y1 as nat) < pow2(zoom as nat),
            w * h <= usize::MAX,
            r@.len() == i * h,
            forall|i2: int, j2: int|
                0 <= i2 < i && 0 <= j2 < h ==> #[trigger] r@[i2 * h + j2] == (TileAddress {
                    zoom,
                    x: (x0 + i2) as u32,
                    y: (y0 + j2) as u32,
                }),
            forall|t: int| 0 <= t < r@.len() ==> (#[trigger] r@[t]).wf(),
        decreases w - i,
    {
        let mut j: u32 = 0;
        proof {
            assert((i + 1) * h <= w * h && i * h + h == (i + 1) * h) by (nonlinear_arith)
                requires 0 <= i < w, 0 < h;
        }
        while j < h
            invariant
                0 <= j <= h,
                0 <= i < w,
                w == x1 - x0 + 1,
                h == y1 - y0 + 1,
                zoom <= MAX_ZOOM,
                x0 <= x1,
                y0 <= y1,
                (x1 as nat) < pow2(zoom as nat),
                (y1 as nat) < pow2(zoom as nat),
                w * h <= usize::MAX,
                i * h + h <= w * h,
                r@.len() == i * h + j,
                forall|i2: int, j2: int|
                    0 <= i2 < i && 0 <= j2 < h ==> #[trigger] r@[i2 * h + j2] == (TileAddress {
                        zoom,
                        x: (x0 + i2) as u32,
                        y: (y0 + j2) as u32,
                    }),
                forall|j2: int|
                    0 <= j2 < j ==> #[trigger] r@[i * h + j2] == (TileAddress {
                        zoom,
                        x: (x0 + i) as u32,
                        y: (y0 + j2) as u32,
                    }),
                forall|t: int| 0 <= t < r@.len() ==> (#[trigger] r@[t]).wf(),
            decreases h - j,
        {
            let m = TileAddress { zoom, x: x0 + i, y: y0 + j };
            r.push(m);
            proof {
                assert forall|i2: int, j2: int|
                    0 <= i2 < i && 0 <= j2 < h implies #[trigger] r@[i2 * h + j2]
                    == (TileAddress {
                    zoom,
                    x: (x0 + i2) as u32,
                    y: (y0 + j2) as u32,
                }) by {
                    vstd::arithmetic::mul::lemma_mul_inequality(i2 + 1, i as int, h as int);
                    assert((i2 + 1) * h == i2 * h + h) by (nonlinear_arith);
                    assert(0 <= i2 * h) by (nonlinear_arith)
                        requires 0 <= i2, 0 <= h;
                    assert(i2 * h + j2 < i * h + j);
                }
            }
            j += 1;
        }
        i += 1;
    }
    r
}

/// A tile's geographic extent, built from the edge positions the outside
/// tile arithmetic reports (already scaled to 1e-7-degree units). Nothing
/// is assumed of those values: the box is returned exactly when the edges
/// are ordered and within the degree ranges, and `None` otherwise.
pub fn tile_bounds_from_edges(north_e7: i64, south_e7: i64, west_e7: i64, east_e7: i64) -> (r:
    Option<GeoBox>)
    ensures
        match r {
            Some(b) => {
                &&& b == (GeoBox { north_e7, south_e7, west_e7, east_e7 })
                &&& b.wf()
            },
            None => !(GeoBox { north_e7, south_e7, west_e7, east_e7 }).wf(),
        },
{
    GeoBox::new(north_e7, south_e7, west_e7, east_e7)
}

} // verus!
