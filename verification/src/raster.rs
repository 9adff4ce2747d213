//! The polygon rasterizer: which tiles a polygon touches, the projection
//! of its vertices into each touched tile's pixel space, and the draw
//! into that tile's outline canvas.
//!
//! Tile membership is decided from the per-vertex containing tiles only:
//! a polygon whose edge crosses a tile that holds none of its vertices is
//! not drawn into that tile. This is a known limitation of the scheme,
//! kept deliberately.

use vstd::prelude::*;
use crate::geom::{GeoCoordinate, GeoBox, clamp_pixel, spec_project_lon, spec_project_lat,
    project_to_pixel, MAX_EXTENT, PIXEL_BOUND};
use crate::tiles::{TileAddress, MAX_ZOOM, spec_tile_from_raw, tile_from_raw_index};
use crate::cache::TileCache;
use crate::classify::{Classification, spec_color_of, color_of};
use crate::canvas::{polygon_drawn, points_view};

verus! {

/// Whether an address is the containing tile of one of the listed raw
/// vertex indices.
pub open spec fn from_some_vertex(a: TileAddress, zoom: u8, raw: Seq<(u32, u32)>) -> bool {
    exists|v: int|
        0 <= v < raw.len() && a == spec_tile_from_raw(zoom, (#[trigger] raw[v]).0, raw[v].1)
}

/// Whether some address in the list has this key.
pub open spec fn tiles_have_key(s: Seq<TileAddress>, k: u64) -> bool {
    exists|i: int| 0 <= i < s.len() && (#[trigger] s[i]).spec_key() == k
}

/// The distinct tiles containing a polygon's vertices, from the raw
/// per-vertex slippy indices (computed by the caller), in first-seen
/// order: every vertex's tile is listed, nothing else is, and no key
/// repeats.
pub fn touched_tiles(zoom: u8, raw: &Vec<(u32, u32)>) -> (r: Vec<TileAddress>)
    requires
        zoom <= MAX_ZOOM,
    ensures
        forall|i: int| 0 <= i < r@.len() ==> (#[trigger] r@[i]).wf() && r@[i].zoom == zoom,
        forall|i: int, j: int|
            0 <= i < j < r@.len() ==> r@[i].spec_key() != r@[j].spec_key(),
        forall|v: int|
            0 <= v < raw@.len() ==> tiles_have_key(
                r@, spec_tile_from_raw(zoom, (#[trigger] raw@[v]).0, raw@[v].1).spec_key()),
        forall|i: int| 0 <= i < r@.len() ==> from_some_vertex(#[trigger] r@[i], zoom, raw@),
{
    let mut r: Vec<TileAddress> = Vec::new();
    let n = raw.len();
    let mut v: usize = 0;
    while v < n
        invariant
            0 <= v <= n,
            n == raw@.len(),
            zoom <= MAX_ZOOM,
            forall|i: int| 0 <= i < r@.len() ==> (#[trigger] r@[i]).wf() && r@[i].zoom == zoom,
            forall|i: int, j: int|
                0 <= i < j < r@.len() ==> r@[i].spec_key() != r@[j].spec_key(),
            forall|t: int|
                0 <= t < v ==> tiles_have_key(
                    r@, spec_tile_from_raw(zoom, (#[trigger] raw@[t]).0, raw@[t].1).spec_key()),
            forall|i: int| 0 <= i < r@.len() ==> from_some_vertex(#[trigger] r@[i], zoom, raw@),
        decreases n - v,
    {
        let (rx, ry) = raw[v];
        let a = tile_from_raw_index(zoom, rx, ry);
        let k = a.key();
        let mut seen = false;
        let m = r.len();
        let mut i: usize = 0;
        while i < m
            invariant
                0 <= i <= m,
                m == r@.len(),
                a.wf(),
                k == a.spec_key(),
                forall|t: int| 0 <= t < r@.len() ==> (#[trigger] r@[t]).wf(),
                seen ==> tiles_have_key(r@, k),
                !seen ==> forall|t: int| 0 <= t < i ==> (#[trigger] r@[t]).spec_key() != k,
            decreases m - i,
        {
            if r[i].key() == k {
                seen = true;
                proof {
                    assert(r@[i as int].spec_key() == k);
                }
            }
            i += 1;
        }
        let ghost r_pre = r@;
        if !seen {
            r.push(a);
            proof {
                assert(r@[r@.len() - 1] == a);
                assert(tiles_have_key(r@, k));
                assert(a == spec_tile_from_raw(zoom, raw@[v as int].0, raw@[v as int].1));
                assert(from_some_vertex(a, zoom, raw@));
                assert(r@ == r_pre.push(a));
                lemma_tiles_have_key_push(r_pre, a);
            }
        }
        proof {
            assert(tiles_have_key(r@, spec_tile_from_raw(
                zoom, raw@[v as int].0, raw@[v as int].1).spec_key()));
        }
        v += 1;
    }
    r
}

/// Appending an address keeps every key already present and adds its
/// own.
proof fn lemma_tiles_have_key_push(s: Seq<TileAddress>, a: TileAddress)
    ensures
        forall|k: u64| tiles_have_key(s, k) ==> tiles_have_key(s.push(a), k),
        tiles_have_key(s.push(a), a.spec_key()),
{
    assert(s.push(a)[s.len() as int] == a);
    assert forall|k: u64| tiles_have_key(s, k) implies tiles_have_key(s.push(a), k) by {
        let w = choose|i: int| 0 <= i < s.len() && (#[trigger] s[i]).spec_key() == k;
        assert(s.push(a)[w] == s[w]);
    }
}

/// A vertex projected into a tile's pixel space, saturated into `i32`.
pub open spec fn spec_projected(poly: Seq<GeoCoordinate>, b: GeoBox, w: int, h: int) -> Seq<(
    i32,
    i32,
)> {
    poly.map_values(
        |c: GeoCoordinate|
            (
                clamp_pixel(spec_project_lon(c, b, w)) as i32,
                clamp_pixel(spec_project_lat(c, b, h)) as i32,
            ),
    )
}

/// Drop trailing vertices that coincide with the first (the closing
/// point of the ring, and any duplicates of it), down to a single
/// vertex. What remains is an open path: its last vertex differs from
/// its first whenever two or more remain.
pub open spec fn strip_closing(s: Seq<(i32, i32)>) -> Seq<(i32, i32)>
    decreases s.len(),
{
    if s.len() <= 1 {
        s
    } else if s.last() == s[0] {
        strip_closing(s.drop_last())
    } else {
        s
    }
}

/// `strip_closing` yields a prefix of its input, keeps the head, and
/// leaves an open path.
pub proof fn lemma_strip_closing(s: Seq<(i32, i32)>)
    ensures
        strip_closing(s).len() <= s.len(),
        forall|i: int|
            0 <= i < strip_closing(s).len() ==> #[trigger] strip_closing(s)[i] == s[i],
        strip_closing(s).len() >= 1 ==> s.len() >= 1 && strip_closing(s)[0] == s[0],
        strip_closing(s).len() >= 2 ==> strip_closing(s).last() != strip_closing(s)[0],
    decreases s.len(),
{
    if s.len() <= 1 {
    } else if s.last() == s[0] {
        let p = s.drop_last();
        lemma_strip_closing(p);
        if p.len() >= 1 {
            assert(p[0] == s[0]);
        }
        assert(forall|i: int| 0 <= i < p.len() ==> p[i] == s[i]);
    }
}

/// Project every vertex into a tile's pixel space and strip the closing
/// duplicates.
pub fn project_and_strip(poly: &Vec<GeoCoordinate>, b: &GeoBox, w: u32, h: u32) -> (r: Vec<(
    i32,
    i32,
)>)
    requires
        b.wf(),
        0 < w <= MAX_EXTENT,
        0 < h <= MAX_EXTENT,
        forall|i: int| 0 <= i < poly@.len() ==> (#[trigger] poly@[i]).wf(),
    ensures
        r@ == strip_closing(spec_projected(poly@, *b, w as int, h as int)),
{
    let ghost full = spec_projected(poly@, *b, w as int, h as int);
    let mut pts: Vec<(i32, i32)> = Vec::new();
    let n = poly.len();
    let mut i: usize = 0;
    while i < n
        invariant
            0 <= i <= n,
            n == poly@.len(),
            b.wf(),
            0 < w <= MAX_EXTENT,
            0 < h <= MAX_EXTENT,
            forall|t: int| 0 <= t < poly@.len() ==> (#[trigger] poly@[t]).wf(),
            full == spec_projected(poly@, *b, w as int, h as int),
            pts@.len() == i,
            forall|t: int| 0 <= t < i ==> pts@[t] == full[t],
        decreases n - i,
    {
        let c = poly[i];
        let p = project_to_pixel(&c, b, w, h);
        pts.push(p);
        i += 1;
    }
    proof {
        assert(pts@ =~= full);
    }
    loop
        invariant
            strip_closing(pts@) == strip_closing(full),
        ensures
            pts@.len() <= 1 || pts@.last() != pts@[0],
        decreases pts@.len(),
    {
        let len = pts.len();
        if len <= 1 {
            break;
        }
        let l = pts[len - 1];
        let f = pts[0];
        if l.0 != f.0 || l.1 != f.1 {
            break;
        }
        pts.pop();
    }
    proof {
        assert(strip_closing(pts@) == pts@);
    }
    pts
}

/// A listed tile gets the polygon drawn when both its layers are loaded,
/// its outline canvas has usable dimensions, and the projected, stripped
/// vertex list still has at least two vertices.
pub open spec fn spec_will_draw(
    cache: TileCache,
    t: TileAddress,
    b: GeoBox,
    poly: Seq<GeoCoordinate>,
) -> bool {
    let k = t.spec_key();
    let c = cache.outline_map()[k];
    &&& cache.loaded(k)
    &&& 0 < c.width <= MAX_EXTENT
    &&& 0 < c.height <= MAX_EXTENT
    &&& strip_closing(spec_projected(poly, b, c.width as int, c.height as int)).len() >= 2
}

/// The outline pixels a draw leaves on a tile's canvas.
pub open spec fn spec_drawn_pixels(
    cache: TileCache,
    t: TileAddress,
    b: GeoBox,
    poly: Seq<GeoCoordinate>,
    class: Classification,
) -> Seq<u8> {
    let c = cache.outline_map()[t.spec_key()];
    polygon_drawn(
        c.width as int,
        c.height as int,
        c.pixels@,
        points_view(strip_closing(spec_projected(poly, b, c.width as int, c.height as int))),
        spec_color_of(class),
    )
}

/// Everything `rasterize_polygon` guarantees of the cache transition
/// from `pre` to `post`: run parameters, base imagery and outline domain
/// kept; each drawable listed tile's outline canvas carries the drawn
/// polygon; every other canvas is untouched; every listed address is
/// marked dirty and nothing else newly is.
pub open spec fn spec_rasterize_post(
    pre: TileCache,
    post: TileCache,
    poly: Seq<GeoCoordinate>,
    tiles: Seq<TileAddress>,
    boxes: Seq<GeoBox>,
    class: Classification,
) -> bool {
    &&& post.wf()
    &&& post.spec_zoom() == pre.spec_zoom()
    &&& post.spec_interest() == pre.spec_interest()
    &&& post.spec_tile_size() == pre.spec_tile_size()
    &&& post.spec_provider_base() == pre.spec_provider_base()
    &&& post.present@ == pre.present@
    &&& post.outline_map().dom() == pre.outline_map().dom()
    &&& (forall|i: int|
        0 <= i < tiles.len() && spec_will_draw(pre, #[trigger] tiles[i], boxes[i], poly) ==> {
            &&& post.outline_map()[tiles[i].spec_key()].pixels@ == spec_drawn_pixels(
                pre, tiles[i], boxes[i], poly, class)
            &&& post.outline_map()[tiles[i].spec_key()].width == pre.outline_map()[
                tiles[i].spec_key()].width
            &&& post.outline_map()[tiles[i].spec_key()].height == pre.outline_map()[
                tiles[i].spec_key()].height
        })
    &&& (forall|i: int|
        0 <= i < tiles.len() && !spec_will_draw(pre, #[trigger] tiles[i], boxes[i], poly)
            && pre.outline_map().contains_key(tiles[i].spec_key()) ==> post.outline_map()[
            tiles[i].spec_key()] == pre.outline_map()[tiles[i].spec_key()])
    &&& (forall|k: u64|
        pre.outline_map().contains_key(k) && !tiles_have_key(tiles, k) ==> post.outline_map()[k]
            == pre.outline_map()[k])
    &&& (forall|i: int|
        0 <= i < tiles.len() ==> tiles_have_key(
            post.dirty_seq(), (#[trigger] tiles[i]).spec_key()))
    &&& (forall|j: int|
        0 <= j < post.dirty_seq().len() ==> tiles_have_key(
            pre.dirty_seq(), (#[trigger] post.dirty_seq()[j]).spec_key()) || tiles_have_key(
            tiles, post.dirty_seq()[j].spec_key()))
}

/// Polygon spanning two tiles: when a polygon's touched list holds two
/// distinct drawable tiles, the rasterizer's contract puts the polygon,
/// projected into each tile's own pixel space, into both tiles' outline
/// canvases, and marks both addresses dirty.
pub proof fn lemma_polygon_spans_two_tiles(
    pre: TileCache,
    post: TileCache,
    poly: Seq<GeoCoordinate>,
    tiles: Seq<TileAddress>,
    boxes: Seq<GeoBox>,
    class: Classification,
)
    requires
        spec_rasterize_post(pre, post, poly, tiles, boxes, class),
        tiles.len() == 2,
        boxes.len() == 2,
        tiles[0].spec_key() != tiles[1].spec_key(),
        spec_will_draw(pre, tiles[0], boxes[0], poly),
        spec_will_draw(pre, tiles[1], boxes[1], poly),
    ensures
        post.outline_map()[tiles[0].spec_key()].pixels@ == spec_drawn_pixels(
            pre, tiles[0], boxes[0], poly, class),
        post.outline_map()[tiles[1].spec_key()].pixels@ == spec_drawn_pixels(
            pre, tiles[1], boxes[1], poly, class),
        tiles_have_key(post.dirty_seq(), tiles[0].spec_key()),
        tiles_have_key(post.dirty_seq(), tiles[1].spec_key()),
{
    assert(spec_will_draw(pre, tiles[0], boxes[0], poly));
    assert(spec_will_draw(pre, tiles[1], boxes[1], poly));
}

/// Draw a classified polygon into the outline canvases of its touched
/// tiles (as listed, with each tile's geographic extent): every listed
/// tile is marked dirty; each drawable one receives the polygon in the
/// classification's color; every other canvas, listed or not, is left
/// untouched. Tiles that are not loaded — out of interest, or failed —
/// are silently skipped, not an error.
pub fn rasterize_polygon(
    cache: &mut TileCache,
    poly: &Vec<GeoCoordinate>,
    tiles: &Vec<TileAddress>,
    boxes: &Vec<GeoBox>,
    class: Classification,
)
    requires
        old(cache).wf(),
        tiles@.len() == boxes@.len(),
        forall|i: int|
            0 <= i < tiles@.len() ==> (#[trigger] tiles@[i]).wf() && tiles@[i].zoom == old(
                cache).spec_zoom(),
        forall|i: int| 0 <= i < boxes@.len() ==> (#[trigger] boxes@[i]).wf(),
        forall|i: int, j: int|
            0 <= i < j < tiles@.len() ==> tiles@[i].spec_key() != tiles@[j].spec_key(),
        forall|i: int| 0 <= i < poly@.len() ==> (#[trigger] poly@[i]).wf(),
    ensures
        spec_rasterize_post(*old(cache), *final(cache), poly@, tiles@, boxes@, class),
{
    let n = tiles.len();
    let mut i: usize = 0;
    while i < n
        invariant
            0 <= i <= n,
            n == tiles@.len(),
            tiles@.len() == boxes@.len(),
            cache.wf(),
            cache.spec_zoom() == old(cache).spec_zoom(),
            cache.spec_interest() == old(cache).spec_interest(),
            cache.spec_tile_size() == old(cache).spec_tile_size(),
            cache.spec_provider_base() == old(cache).spec_provider_base(),
            cache.present@ == old(cache).present@,
            cache.outline_map().dom() == old(cache).outline_map().dom(),
            forall|t: int|
                0 <= t < tiles@.len() ==> (#[trigger] tiles@[t]).wf() && tiles@[t].zoom == old(
                    cache).spec_zoom(),
            forall|t: int| 0 <= t < boxes@.len() ==> (#[trigger] boxes@[t]).wf(),
            forall|t: int, j: int|
                0 <= t < j < tiles@.len() ==> tiles@[t].spec_key() != tiles@[j].spec_key(),
            forall|t: int| 0 <= t < poly@.len() ==> (#[trigger] poly@[t]).wf(),
            forall|t: int|
                0 <= t < i && spec_will_draw(
                    *old(cache), #[trigger] tiles@[t], boxes@[t], poly@) ==> {
                    &&& cache.outline_map()[tiles@[t].spec_key()].pixels@ == spec_drawn_pixels(
                        *old(cache), tiles@[t], boxes@[t], poly@, class)
                    &&& cache.outline_map()[tiles@[t].spec_key()].width == old(
                        cache).outline_map()[tiles@[t].spec_key()].width
                    &&& cache.outline_map()[tiles@[t].spec_key()].height == old(
                        cache).outline_map()[tiles@[t].spec_key()].height
                },
            forall|t: int|
                i <= t < tiles@.len() && old(cache).outline_map().contains_key(
                    (#[trigger] tiles@[t]).spec_key()) ==> cache.outline_map()[
                    tiles@[t].spec_key()] == old(cache).outline_map()[tiles@[t].spec_key()],
            forall|t: int|
                0 <= t < i && !spec_will_draw(
                    *old(cache), #[trigger] tiles@[t], boxes@[t], poly@) && old(
                    cache).outline_map().contains_key(tiles@[t].spec_key()) ==> cache.outline_map()[
                    tiles@[t].spec_key()] == old(cache).outline_map()[tiles@[t].spec_key()],
            forall|k: u64|
                old(cache).outline_map().contains_key(k) && !tiles_have_key(tiles@, k)
                    ==> cache.outline_map()[k] == old(cache).outline_map()[k],
            forall|t: int|
                0 <= t < i ==> tiles_have_key(
                    cache.dirty_seq(), (#[trigger] tiles@[t]).spec_key()),
            forall|j: int|
                0 <= j < cache.dirty_seq().len() ==> tiles_have_key(
                    old(cache).dirty_seq(), (#[trigger] cache.dirty_seq()[j]).spec_key())
                    || tiles_have_key(tiles@, cache.dirty_seq()[j].spec_key()),
        decreases n - i,
    {
        let t = tiles[i];
        let b = boxes[i];
        let ghost pre = *cache;
        cache.mark_dirty(&t);
        proof {
            lemma_dirty_monotone(pre, *cache, tiles@, i as int);
        }
        let ghost marked = *cache;
        let k = t.key();
        let mut dims: Option<(u32, u32)> = None;
        match cache.outline_of(&t) {
            Some(c) => {
                dims = Some((c.width, c.height));
            },
            None => {
            },
        }
        let loaded = cache.is_loaded(&t);
        if loaded {
            if let Some((w, h)) = dims {
                if 0 < w && w <= MAX_EXTENT && 0 < h && h <= MAX_EXTENT {
                    let pts = project_and_strip(poly, &b, w, h);
                    proof {
                        lemma_strip_closing(
                            spec_projected(poly@, b, w as int, h as int));
                        assert forall|t2: int|
                            0 <= t2 < pts@.len() implies -PIXEL_BOUND <= (
                            #[trigger] pts@[t2]).0 <= PIXEL_BOUND && -PIXEL_BOUND
                            <= pts@[t2].1 <= PIXEL_BOUND by {
                            let full = spec_projected(poly@, b, w as int, h as int);
                            assert(pts@[t2] == full[t2]);
                            assert(full[t2] == (
                                clamp_pixel(spec_project_lon(poly@[t2], b, w as int)) as i32,
                                clamp_pixel(spec_project_lat(poly@[t2], b, h as int)) as i32,
                            ));
                        }
                    }
                    if pts.len() >= 2 {
                        let res = cache.draw_outline(&t, &pts, color_of(class));
                        proof {
                            assert(res is Ok);
                        }
                    }
                }
            }
        }
        proof {
            assert forall|t2: int|
                0 <= t2 < i && spec_will_draw(
                    *old(cache), #[trigger] tiles@[t2], boxes@[t2], poly@) implies {
                &&& cache.outline_map()[tiles@[t2].spec_key()].pixels@ == spec_drawn_pixels(
                    *old(cache), tiles@[t2], boxes@[t2], poly@, class)
                &&& cache.outline_map()[tiles@[t2].spec_key()].width == old(
                    cache).outline_map()[tiles@[t2].spec_key()].width
                &&& cache.outline_map()[tiles@[t2].spec_key()].height == old(
                    cache).outline_map()[tiles@[t2].spec_key()].height
            } by {
                assert(tiles@[t2].spec_key() != tiles@[i as int].spec_key());
            }
        }
        i += 1;
    }
}

/// Marking one address dirty keeps every key already on the list and
/// adds that address's key.
proof fn lemma_dirty_monotone(pre: TileCache, post: TileCache, tiles: Seq<TileAddress>, i: int)
    requires
        0 <= i < tiles.len(),
        post.dirty_seq() == if tiles_have_key(pre.dirty_seq(), tiles[i].spec_key()) {
            pre.dirty_seq()
        } else {
            pre.dirty_seq().push(tiles[i])
        },
    ensures
        tiles_have_key(post.dirty_seq(), tiles[i].spec_key()),
        forall|k: u64| tiles_have_key(pre.dirty_seq(), k) ==> tiles_have_key(
            post.dirty_seq(), k),
        forall|j: int|
            0 <= j < post.dirty_seq().len() ==> tiles_have_key(
                pre.dirty_seq(), (#[trigger] post.dirty_seq()[j]).spec_key())
                || post.dirty_seq()[j].spec_key() == tiles[i].spec_key(),
{
    let k0 = tiles[i].spec_key();
    if tiles_have_key(pre.dirty_seq(), k0) {
    } else {
        assert(post.dirty_seq()[post.dirty_seq().len() - 1] == tiles[i]);
        assert forall|k: u64| tiles_have_key(pre.dirty_seq(), k) implies tiles_have_key(
            post.dirty_seq(), k) by {
            let w = choose|j: int|
                0 <= j < pre.dirty_seq().len() && (#[trigger] pre.dirty_seq()[j]).spec_key()
                    == k;
            assert(post.dirty_seq()[w].spec_key() == k);
        }
        assert forall|j: int|
            0 <= j < post.dirty_seq().len() implies tiles_have_key(
            pre.dirty_seq(), (#[trigger] post.dirty_seq()[j]).spec_key())
            || post.dirty_seq()[j].spec_key() == tiles[i].spec_key() by {
            if j < pre.dirty_seq().len() {
                assert(pre.dirty_seq()[j].spec_key() == post.dirty_seq()[j].spec_key());
            }
        }
    }
}

} // verus!
