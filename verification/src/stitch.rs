//! The mosaic stitcher: grouping tiles into fixed-size blocks, claiming
//! each block exactly once across concurrent workers, and compositing the
//! member canvases into one block image per layer.
//!
//! Concurrency stays outside the library: workers serialize their
//! check-and-insert through one owner of the `TouchedSet` (a coordinator
//! task or a mutex), and that single serialized operation is
//! `try_claim_block`, whose contract makes a second grant of one block
//! key impossible.

use vstd::prelude::*;
use std::collections::HashSet;
use vstd::arithmetic::div_mod::{lemma_fundamental_div_mod_converse, lemma_fundamental_div_mod};
use vstd::arithmetic::mul::lemma_mul_inequality;
use crate::tiles::TileAddress;
use crate::canvas::{Canvas, overlay_canvas, overlay_region, pixel_offset};
use crate::geom::MAX_EXTENT;

verus! {

broadcast use vstd::std_specs::hash::group_hash_axioms;

/// The record of block keys already folded into some emitted mosaic
/// block. Membership only ever grows.
pub struct TouchedSet {
    pub inner: HashSet<u64>,
}

/// A claim is granted exactly when the key is not yet in the set.
pub open spec fn claim_grants(s: Set<u64>, k: u64) -> bool {
    !s.contains(k)
}

/// The set after a claim: the key is in it, granted or not.
pub open spec fn claim_next(s: Set<u64>, k: u64) -> Set<u64> {
    s.insert(k)
}

impl TouchedSet {
    pub open spec fn spec_set(self) -> Set<u64> {
        self.inner@
    }

    pub fn new() -> (r: TouchedSet)
        ensures
            r.spec_set() == Set::<u64>::empty(),
    {
        TouchedSet { inner: HashSet::new() }
    }

    pub fn contains(&self, k: u64) -> (r: bool)
        ensures
            r == self.spec_set().contains(k),
    {
        self.inner.contains(&k)
    }

    /// The atomic check-and-insert: grants exactly when the key was
    /// absent, and records it either way. Callers serialize all claims
    /// through one owner, so consecutive spec states chain through
    /// `claim_next`.
    pub fn claim(&mut self, k: u64) -> (granted: bool)
        ensures
            granted == claim_grants(old(self).spec_set(), k),
            final(self).spec_set() == claim_next(old(self).spec_set(), k),
    {
        let was_new = self.inner.insert(k);
        was_new
    }
}

/// Claims only grow the set: everything in it stays in it.
pub proof fn lemma_claim_monotone(s: Set<u64>, k: u64)
    ensures
        s.subset_of(claim_next(s, k)),
        claim_next(s, k).contains(k),
{
}

/// Mosaic exactly-once: once a claim of a key is granted, no later claim
/// of that key is granted, whatever other claims happen in between —
/// every reachable later state contains the granted key, since claims
/// only add.
pub proof fn lemma_claim_exactly_once(s0: Set<u64>, s1: Set<u64>, k: u64)
    requires
        claim_grants(s0, k),
        claim_next(s0, k).subset_of(s1),
    ensures
        !claim_grants(s1, k),
{
    assert(s1.contains(k));
}

/// A block anchor: both indices multiples of the block size.
pub open spec fn spec_is_anchor(a: TileAddress, n: u32) -> bool {
    a.x % n == 0 && a.y % n == 0
}

pub fn is_anchor(a: &TileAddress, n: u32) -> (r: bool)
    requires
        n >= 1,
    ensures
        r == spec_is_anchor(*a, n),
{
    a.x % n == 0 && a.y % n == 0
}

/// One worker step of the sweep, serialized through the set's owner:
/// non-anchors are never claimed; an anchor is claimed, and granted
/// exactly when its key was absent. The caller builds the block only on a
/// grant.
pub fn try_claim_block(touched: &mut TouchedSet, a: &TileAddress, n: u32) -> (granted: bool)
    requires
        n >= 1,
    ensures
        granted == (spec_is_anchor(*a, n) && claim_grants(old(touched).spec_set(), a.spec_key())),
        final(touched).spec_set() == if spec_is_anchor(*a, n) {
            claim_next(old(touched).spec_set(), a.spec_key())
        } else {
            old(touched).spec_set()
        },
    {
    if !is_anchor(a, n) {
        return false;
    }
    touched.claim(a.key())
}

/// The member addresses of the block anchored at `a`: the `n * n` grid
/// of tiles from the anchor, column-major (all of column `dx`, then the
/// next column), as the compositor expects them.
pub fn block_members(a: &TileAddress, n: u32) -> (r: Vec<TileAddress>)
    requires
        a.wf(),
        n >= 1,
        a.x + n <= vstd::arithmetic::power2::pow2(a.zoom as nat),
        a.y + n <= vstd::arithmetic::power2::pow2(a.zoom as nat),
        n * n <= usize::MAX,
    ensures
        r@.len() == n * n,
        forall|dx: int, dy: int|
            0 <= dx < n && 0 <= dy < n ==> #[trigger] r@[dx * n + dy] == (TileAddress {
                zoom: a.zoom,
                x: (a.x + dx) as u32,
                y: (a.y + dy) as u32,
            }),
        forall|i: int| 0 <= i < r@.len() ==> (#[trigger] r@[i]).wf(),
{
    proof {
        vstd::arithmetic::power2::lemma2_to64();
        if (a.zoom as nat) < 30 {
            vstd::arithmetic::power2::lemma_pow2_strictly_increases(a.zoom as nat, 30);
        }
    }
    let mut r: Vec<TileAddress> = Vec::new();
    let mut dx: u32 = 0;
    while dx < n
        invariant
            0 <= dx <= n,
            a.wf(),
            n >= 1,
            a.x + n <= vstd::arithmetic::power2::pow2(a.zoom as nat),
            a.y + n <= vstd::arithmetic::power2::pow2(a.zoom as nat),
            a.x + n <= 0x4000_0000,
            a.y + n <= 0x4000_0000,
            n * n <= usize::MAX,
            r@.len() == dx * n,
            forall|dx2: int, dy2: int|
                0 <= dx2 < dx && 0 <= dy2 < n ==> #[trigger] r@[dx2 * n + dy2] == (TileAddress {
                    zoom: a.zoom,
                    x: (a.x + dx2) as u32,
                    y: (a.y + dy2) as u32,
                }),
            forall|i: int| 0 <= i < r@.len() ==> (#[trigger] r@[i]).wf(),
        decreases n - dx,
    {
        let mut dy: u32 = 0;
        proof {
            assert((dx + 1) * n <= n * n && dx * n + n == (dx + 1) * n) by (nonlinear_arith)
                requires 0 <= dx < n;
        }
        while dy < n
            invariant
                0 <= dy <= n,
                0 <= dx < n,
                a.wf(),
                n >= 1,
                a.x + n <= vstd::arithmetic::power2::pow2(a.zoom as nat),
                a.y + n <= vstd::arithmetic::power2::pow2(a.zoom as nat),
                a.x + n <= 0x4000_0000,
                a.y + n <= 0x4000_0000,
                n * n <= usize::MAX,
                dx * n + n <= n * n,
                r@.len() == dx * n + dy,
                forall|dx2: int, dy2: int|
                    0 <= dx2 < dx && 0 <= dy2 < n ==> #[trigger] r@[dx2 * n + dy2] == (TileAddress {
                        zoom: a.zoom,
                        x: (a.x + dx2) as u32,
                        y: (a.y + dy2) as u32,
                    }),
                forall|dy2: int|
                    0 <= dy2 < dy ==> #[trigger] r@[dx * n + dy2] == (TileAddress {
                        zoom: a.zoom,
                        x: (a.x + dx) as u32,
                        y: (a.y + dy2) as u32,
                    }),
                forall|i: int| 0 <= i < r@.len() ==> (#[trigger] r@[i]).wf(),
            decreases n - dy,
        {
            let m = TileAddress { zoom: a.zoom, x: a.x + dx, y: a.y + dy };
            proof {
                assert forall|dx2: int, dy2: int|
                    0 <= dx2 < dx && 0 <= dy2 < n implies #[trigger] (dx2 * n + dy2) < dx * n
                    + dy + 1 by {
                    lemma_mul_inequality(dx2 + 1, dx as int, n as int);
                    assert((dx2 + 1) * n == dx2 * n + n) by (nonlinear_arith);
                }
            }
            r.push(m);
            proof {
                assert forall|dx2: int, dy2: int|
                    0 <= dx2 < dx && 0 <= dy2 < n implies #[trigger] r@[dx2 * n + dy2]
                    == (TileAddress {
                    zoom: a.zoom,
                    x: (a.x + dx2) as u32,
                    y: (a.y + dy2) as u32,
                }) by {
                    lemma_mul_inequality(dx2 + 1, dx as int, n as int);
                    assert((dx2 + 1) * n == dx2 * n + n) by (nonlinear_arith);
                    assert(0 <= dx2 * n) by (nonlinear_arith)
                        requires 0 <= dx2, 0 <= n;
                    assert(dx2 * n + dy2 < dx * n + dy);
                }
            }
            dy += 1;
        }
        dx += 1;
    }
    proof {
        assert forall|dx2: int, dy2: int|
            0 <= dx2 < n && 0 <= dy2 < n implies 0 <= #[trigger] (dx2 * n + dy2) < n * n by {
            lemma_mul_inequality(dx2 + 1, n as int, n as int);
            assert(dx2 * n >= 0) by (nonlinear_arith)
                requires dx2 >= 0, n >= 1;
            assert(dx2 * n + n == (dx2 + 1) * n) by (nonlinear_arith);
        }
    }
    r
}

/// A member tile of a block is missing under the abort policy: the block
/// is skipped, counted, and never retried (its key stays claimed).
#[derive(Clone, Copy, Debug, PartialEq, Eq, Structural)]
pub enum BlockError {
    IncompleteBlock,
}

/// What a block does about a missing member tile: abort the block, or
/// render the member as a flat sentinel-colored quadrant. One policy is
/// chosen per run and applied uniformly.
#[derive(Clone, Copy, Debug, PartialEq, Eq, Structural)]
pub enum MissingPolicy {
    Abort,
    Sentinel(u8, u8, u8),
}

/// The channel a missing quadrant shows under a policy (unused under
/// `Abort`, which never emits one).
pub open spec fn missing_channel(policy: MissingPolicy, ch: int) -> u8 {
    match policy {
        MissingPolicy::Abort => 0u8,
        MissingPolicy::Sentinel(r, g, b) => if ch == 0 {
            r
        } else if ch == 1 {
            g
        } else {
            b
        },
    }
}

/// The channel of block pixel `(px, py)`: the corresponding pixel of the
/// member canvas whose quadrant it falls in, or the sentinel channel if
/// that member is missing.
pub open spec fn block_pixel(
    tiles: Seq<Option<Canvas>>,
    n: int,
    tw: int,
    th: int,
    policy: MissingPolicy,
    px: int,
    py: int,
    ch: int,
) -> u8 {
    let dx = px / tw;
    let dy = py / th;
    match tiles[dx * n + dy] {
        Some(c) => c.pixel(px % tw, py % th, ch),
        None => missing_channel(policy, ch),
    }
}

/// Composite one layer of a block: the `n * n` member canvases (indexed
/// column-major as `block_members` lists them) pasted each into its
/// quadrant of an `(n * tw) * (n * th)` canvas. Under `Abort` the result
/// exists exactly when every member is present; under `Sentinel` a
/// missing member becomes a flat sentinel-colored quadrant.
pub fn compose_layer(
    tiles: &Vec<Option<Canvas>>,
    n: u32,
    tw: u32,
    th: u32,
    policy: MissingPolicy,
) -> (r: Result<Canvas, BlockError>)
    requires
        n >= 1,
        tw >= 1,
        th >= 1,
        n * tw <= MAX_EXTENT,
        n * th <= MAX_EXTENT,
        3 * ((n * tw) as int) * ((n * th) as int) <= usize::MAX,
        n * n <= usize::MAX,
        tiles@.len() == n * n,
        forall|i: int|
            0 <= i < tiles@.len() ==> match #[trigger] tiles@[i] {
                Some(c) => c.wf() && c.width == tw && c.height == th,
                None => true,
            },
    ensures
        match r {
            Ok(c) => {
                &&& c.wf()
                &&& c.width == n * tw
                &&& c.height == n * th
                &&& (policy == MissingPolicy::Abort ==> forall|i: int|
                    0 <= i < tiles@.len() ==> (#[trigger] tiles@[i]) is Some)
                &&& forall|px: int, py: int, ch: int|
                    0 <= px < n * tw && 0 <= py < n * th && 0 <= ch < 3 ==> c.pixel(px, py, ch)
                        == block_pixel(tiles@, n as int, tw as int, th as int, policy, px, py, ch)
            },
            Err(e) => {
                &&& e == BlockError::IncompleteBlock
                &&& policy == MissingPolicy::Abort
                &&& exists|i: int| 0 <= i < tiles@.len() && (#[trigger] tiles@[i]) is None
            },
        },
{
    let bw = n * tw;
    let bh = n * th;
    let mut block = Canvas::blank(bw, bh);
    let mut sentinel: Option<Canvas> = None;
    if let MissingPolicy::Sentinel(sr, sg, sb) = policy {
        proof {
            assert(3 * (tw as int) * (th as int) <= 3 * ((n as int) * (tw as int)) * ((n as int)
                * (th as int))) by (nonlinear_arith)
                requires 1 <= n as int, 1 <= tw as int, 1 <= th as int;
        }
        let mut s = Canvas::blank(tw, th);
        s.fill((sr, sg, sb));
        sentinel = Some(s);
    }
    let mut dx: u32 = 0;
    while dx < n
        invariant
            0 <= dx <= n,
            n >= 1,
            tw >= 1,
            th >= 1,
            bw == n * tw,
            bh == n * th,
            n * tw <= MAX_EXTENT,
            n * th <= MAX_EXTENT,
            3 * (bw as int) * (bh as int) <= usize::MAX,
            n * n <= usize::MAX,
            tiles@.len() == n * n,
            forall|i: int|
                0 <= i < tiles@.len() ==> match #[trigger] tiles@[i] {
                    Some(c) => c.wf() && c.width == tw && c.height == th,
                    None => true,
                },
            block.wf(),
            block.width == bw,
            block.height == bh,
            match policy {
                MissingPolicy::Abort => sentinel is None,
                MissingPolicy::Sentinel(sr, sg, sb) => match sentinel {
                    Some(s) => s.wf() && s.width == tw && s.height == th && forall|i: int|
                        0 <= i < s.pixels@.len() ==> s.pixels@[i] == missing_channel(
                            policy, i % 3),
                    None => false,
                },
            },
            policy == MissingPolicy::Abort ==> forall|dx2: int, dy2: int|
                0 <= dx2 < dx && 0 <= dy2 < n ==> (#[trigger] tiles@[dx2 * n + dy2]) is Some,
            forall|px: int, py: int, ch: int|
                0 <= px < dx * tw && 0 <= py < bh && 0 <= ch < 3 ==> block.pixel(px, py, ch)
                    == block_pixel(tiles@, n as int, tw as int, th as int, policy, px, py, ch),
        decreases n - dx,
    {
        let mut dy: u32 = 0;
        while dy < n
            invariant
                0 <= dy <= n,
                0 <= dx < n,
                n >= 1,
                tw >= 1,
                th >= 1,
                bw == n * tw,
                bh == n * th,
                n * tw <= MAX_EXTENT,
                n * th <= MAX_EXTENT,
                3 * (bw as int) * (bh as int) <= usize::MAX,
                n * n <= usize::MAX,
                tiles@.len() == n * n,
                forall|i: int|
                    0 <= i < tiles@.len() ==> match #[trigger] tiles@[i] {
                        Some(c) => c.wf() && c.width == tw && c.height == th,
                        None => true,
                    },
                block.wf(),
                block.width == bw,
                block.height == bh,
                match policy {
                    MissingPolicy::Abort => sentinel is None,
                    MissingPolicy::Sentinel(sr, sg, sb) => match sentinel {
                        Some(s) => s.wf() && s.width == tw && s.height == th && forall|i: int|
                            0 <= i < s.pixels@.len() ==> s.pixels@[i] == missing_channel(
                                policy, i % 3),
                        None => false,
                    },
                },
                policy == MissingPolicy::Abort ==> forall|dx2: int, dy2: int|
                    0 <= dx2 < dx && 0 <= dy2 < n ==> (#[trigger] tiles@[dx2 * n + dy2]) is Some,
                policy == MissingPolicy::Abort ==> forall|dy2: int|
                    0 <= dy2 < dy ==> (#[trigger] tiles@[dx * n + dy2]) is Some,
                forall|px: int, py: int, ch: int|
                    0 <= px < dx * tw && 0 <= py < bh && 0 <= ch < 3 ==> block.pixel(px, py, ch)
                        == block_pixel(tiles@, n as int, tw as int, th as int, policy, px, py, ch),
                forall|px: int, py: int, ch: int|
                    dx * tw <= px < (dx + 1) * tw && 0 <= py < dy * th && 0 <= ch < 3
                        ==> block.pixel(px, py, ch) == block_pixel(
                        tiles@, n as int, tw as int, th as int, policy, px, py, ch),
            decreases n - dy,
        {
            proof {
                lemma_quadrant_index(n as int, dx as int, dy as int);
                lemma_mul_inequality(dx as int + 1, n as int, tw as int);
                lemma_mul_inequality(dy as int + 1, n as int, th as int);
                assert((dx + 1) * tw == dx * tw + tw && (dy + 1) * th == dy * th + th)
                    by (nonlinear_arith);
            }
            let idx: usize = (dx as usize) * (n as usize) + (dy as usize);
            let ox = dx * tw;
            let oy = dy * th;
            let ghost prev = block;
            match &tiles[idx] {
                Some(c) => {
                    overlay_canvas(&mut block, c, ox, oy);
                },
                None => {
                    match policy {
                        MissingPolicy::Abort => {
                            return Err(BlockError::IncompleteBlock);
                        },
                        MissingPolicy::Sentinel(_, _, _) => {
                            match &sentinel {
                                Some(s) => {
                                    overlay_canvas(&mut block, s, ox, oy);
                                    proof {
                                        assert(s.pixels@ =~= Seq::new(
                                            (3 * (tw as int) * (th as int)) as nat,
                                            |i: int| missing_channel(policy, i % 3)));
                                    }
                                },
                                None => {
                                    proof {
                                        assert(false);
                                    }
                                },
                            }
                        },
                    }
                },
            }
            proof {
                lemma_compose_step(
                    tiles@, n as int, tw as int, th as int, policy, prev, block, dx as int,
                    dy as int);
            }
            dy += 1;
        }
        proof {
            assert((dx + 1) * tw == dx * tw + tw) by (nonlinear_arith);
        }
        dx += 1;
    }
    proof {
        assert(dx * tw == bw);
        if policy == MissingPolicy::Abort {
            assert forall|i: int| 0 <= i < tiles@.len() implies (#[trigger] tiles@[i]) is Some by {
                lemma_fundamental_div_mod(i, n as int);
                let dx2 = i / (n as int);
                let dy2 = i % (n as int);
                assert(0 <= dy2 < n);
                assert(0 <= dx2 < n) by (nonlinear_arith)
                    requires
                        i == (n as int) * dx2 + dy2,
                        0 <= i < (n as int) * (n as int),
                        0 <= dy2 < n,
                        n >= 1;
                assert(dx2 * (n as int) + dy2 == i) by (nonlinear_arith)
                    requires i == (n as int) * dx2 + dy2;
                assert(tiles@[dx2 * (n as int) + dy2] is Some);
            }
        }
    }
    Ok(block)
}

/// The flat index of quadrant `(dx, dy)` is within the member list.
proof fn lemma_quadrant_index(n: int, dx: int, dy: int)
    requires
        0 <= dx < n,
        0 <= dy < n,
    ensures
        0 <= dx * n + dy < n * n,
        dx * n + dy == dx * n + dy,
{
    lemma_mul_inequality(dx + 1, n, n);
    assert(dx * n >= 0 && dx * n + n == (dx + 1) * n) by (nonlinear_arith)
        requires 0 <= dx, n >= 1;
}

/// One overlay step establishes its quadrant and preserves the already
/// established region.
proof fn lemma_compose_step(
    tiles: Seq<Option<Canvas>>,
    n: int,
    tw: int,
    th: int,
    policy: MissingPolicy,
    prev: Canvas,
    cur: Canvas,
    dx: int,
    dy: int,
)
    requires
        n >= 1,
        tw >= 1,
        th >= 1,
        0 <= dx < n,
        0 <= dy < n,
        tiles.len() == n * n,
        forall|i: int|
            0 <= i < tiles.len() ==> match #[trigger] tiles[i] {
                Some(c) => c.wf() && c.width == tw && c.height == th,
                None => true,
            },
        prev.wf(),
        prev.width == n * tw,
        prev.height == n * th,
        cur.width == prev.width,
        cur.height == prev.height,
        // The overlaid source: the member canvas, or the sentinel canvas
        // whose every channel shows the policy's color.
        ({
            let src_pixels = match tiles[dx * n + dy] {
                Some(c) => c.pixels@,
                None => Seq::new((3 * tw * th) as nat, |i: int| missing_channel(policy, i % 3)),
            };
            cur.pixels@ == overlay_region(
                prev.width as int, prev.pixels@, tw, th, src_pixels, dx * tw, dy * th)
        }),
    ensures
        cur.wf(),
        forall|px: int, py: int, ch: int|
            0 <= px < n * tw && 0 <= py < n * th && 0 <= ch < 3 && !(dx * tw <= px < dx * tw + tw
                && dy * th <= py < dy * th + th) ==> cur.pixel(px, py, ch) == prev.pixel(
                px, py, ch),
        forall|px: int, py: int, ch: int|
            dx * tw <= px < dx * tw + tw && dy * th <= py < dy * th + th && 0 <= ch < 3
                ==> cur.pixel(px, py, ch) == block_pixel(tiles, n, tw, th, policy, px, py, ch),
{
    let w = prev.width as int;
    let h = prev.height as int;
    lemma_quadrant_index(n, dx, dy);
    assert(w == n * tw && h == n * th);
    assert(cur.pixels@.len() == prev.pixels@.len());
    assert forall|px: int, py: int, ch: int|
        0 <= px < w && 0 <= py < h && 0 <= ch < 3 implies {
        &&& 0 <= #[trigger] pixel_offset(w, px, py, ch) < prev.pixels@.len()
        &&& pixel_offset(w, px, py, ch) / 3 == py * w + px
        &&& pixel_offset(w, px, py, ch) % 3 == ch
        &&& (py * w + px) % w == px
        &&& (py * w + px) / w == py
    } by {
        lemma_offset_decomp(w, h, px, py, ch);
    }
    assert forall|px: int, py: int, ch: int|
        dx * tw <= px < dx * tw + tw && dy * th <= py < dy * th + th && 0 <= ch < 3 implies cur
        .pixel(px, py, ch) == block_pixel(tiles, n, tw, th, policy, px, py, ch) by {
        lemma_mul_inequality(dx + 1, n, tw);
        lemma_mul_inequality(dy + 1, n, th);
        assert((dx + 1) * tw == dx * tw + tw && (dy + 1) * th == dy * th + th)
            by (nonlinear_arith);
        let lx = px - dx * tw;
        let ly = py - dy * th;
        lemma_fundamental_div_mod_converse(px, tw, dx, lx);
        lemma_fundamental_div_mod_converse(py, th, dy, ly);
        let j = 3 * (ly * tw + lx);
        assert(0 <= ly * tw + lx < tw * th) by (nonlinear_arith)
            requires 0 <= lx < tw, 0 <= ly < th;
        lemma_offset_decomp(tw, th, lx, ly, ch);
        match tiles[dx * n + dy] {
            Some(c) => {
                assert(cur.pixel(px, py, ch) == c.pixels@[3 * (ly * tw + lx) + ch]);
            },
            None => {
                let src = Seq::new((3 * tw * th) as nat, |i: int| missing_channel(policy, i % 3));
                assert(cur.pixel(px, py, ch) == src[3 * (ly * tw + lx) + ch]);
                assert((3 * (ly * tw + lx) + ch) % 3 == ch) by {
                    lemma_fundamental_div_mod_converse(
                        3 * (ly * tw + lx) + ch, 3, ly * tw + lx, ch);
                }
            },
        }
    }
}

/// Decompose a pixel-offset index back into its coordinates.
proof fn lemma_offset_decomp(w: int, h: int, px: int, py: int, ch: int)
    requires
        w >= 1,
        h >= 1,
        0 <= px < w,
        0 <= py < h,
        0 <= ch < 3,
    ensures
        0 <= pixel_offset(w, px, py, ch) < 3 * w * h,
        pixel_offset(w, px, py, ch) / 3 == py * w + px,
        pixel_offset(w, px, py, ch) % 3 == ch,
        (py * w + px) % w == px,
        (py * w + px) / w == py,
{
    assert(0 <= py * w + px < w * h) by (nonlinear_arith)
        requires 0 <= py < h, w >= 1, 0 <= px < w;
    assert(3 * (w * h) == 3 * w * h) by (nonlinear_arith);
    lemma_fundamental_div_mod_converse(3 * (py * w + px) + ch, 3, py * w + px, ch);
    lemma_fundamental_div_mod_converse(py * w + px, w, py, px);
}

} // verus!
