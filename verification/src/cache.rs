//! The deduplicating tile-image cache.
//!
//! The cache maps tile addresses (by their packed key) to a base-imagery
//! presence record and an outline canvas, materializing them lazily. It
//! owns no network or disk: `plan_load` decides what a caller must do for
//! an address (nothing, skip, or fetch), `install_fetched` takes the
//! fetched bytes back, and `flush_dirty` hands out which outline canvases
//! are due for persisting. Fetching the bytes and writing the files is
//! the caller's.

use vstd::prelude::*;
use std::collections::{HashMap, HashSet};
use crate::tiles::{TileAddress, MAX_ZOOM};
use crate::geom::GeoBox;
use crate::canvas::{Canvas, decode_rgb_image, rgb_decoded};
use crate::names::{FileKind, tile_name_of, make_tile_name, parse_tile_name, url_path_of,
    make_url_path};

verus! {

broadcast use vstd::std_specs::hash::group_hash_axioms;

/// What a caller must do before an address is usable.
#[derive(Clone, Copy, Debug, PartialEq, Eq, Structural)]
pub enum LoadPlan {
    /// Both layers are in the cache; nothing to do.
    AlreadyLoaded,
    /// The base imagery is already persisted; only the blank outline
    /// canvas must be rebuilt locally, with `restore_outline` — no fetch.
    RestoreOutline,
    /// The tile is absent and outside the area of interest: never fetched,
    /// and not an error.
    OutOfInterest,
    /// The caller must fetch the tile's bytes and hand them to
    /// `install_fetched`.
    NeedFetch,
}

/// Loading a persisted tile back failed.
#[derive(Clone, Copy, Debug, PartialEq, Eq, Structural)]
pub enum LoadError {
    /// The persisted file name does not have the `{y}-{x}.{ext}` shape,
    /// or encodes an index out of range at this zoom. Fatal at load time.
    PersistedNameParse,
    /// The persisted bytes are not a decodable image.
    UndecodableImage,
}

/// A draw was requested for an address whose outline canvas is not
/// loaded: a contract violation at the caller, reported, never drawn.
#[derive(Clone, Copy, Debug, PartialEq, Eq, Structural)]
pub enum CacheError {
    NotLoaded,
}

/// The tile-image cache for one run at one zoom over one area of
/// interest.
pub struct TileCache {
    pub zoom: u8,
    pub interest: GeoBox,
    pub tile_size: u32,
    pub provider_base: Vec<u8>,
    pub present: HashSet<u64>,
    pub outlines: HashMap<u64, Canvas>,
    pub dirty: Vec<TileAddress>,
}

impl TileCache {
    /// The run's fixed zoom.
    pub open spec fn spec_zoom(self) -> u8 {
        self.zoom
    }

    /// The run's area of interest.
    pub open spec fn spec_interest(self) -> GeoBox {
        self.interest
    }

    /// The run's fixed tile canvas size, pixels per axis.
    pub open spec fn spec_tile_size(self) -> u32 {
        self.tile_size
    }

    /// The provider URL base the fetch paths start with.
    pub open spec fn spec_provider_base(self) -> Seq<u8> {
        self.provider_base@
    }

    /// Base imagery known for this key (fetched now or persisted earlier).
    pub open spec fn base_present(self, k: u64) -> bool {
        self.present@.contains(k)
    }

    /// The outline canvases by key.
    pub open spec fn outline_map(self) -> Map<u64, Canvas> {
        self.outlines@
    }

    /// Both layers available: the address is usable for drawing.
    pub open spec fn loaded(self, k: u64) -> bool {
        self.base_present(k) && self.outline_map().contains_key(k)
    }

    /// Outline canvases drawn into since the last flush, in first-marked
    /// order.
    pub open spec fn dirty_seq(self) -> Seq<TileAddress> {
        self.dirty@
    }

    /// The cache invariant: a valid zoom and area, well-formed outline
    /// canvases, and a duplicate-free dirty list of valid addresses at
    /// the run's zoom.
    pub open spec fn wf(self) -> bool {
        &&& self.zoom <= MAX_ZOOM
        &&& self.interest.wf()
        &&& 0 < self.tile_size <= crate::geom::MAX_EXTENT
        &&& 3 * (self.tile_size as int) * (self.tile_size as int) <= usize::MAX
        &&& forall|k: u64|
            self.outlines@.contains_key(k) ==> (#[trigger] self.outlines@[k]).wf()
        &&& forall|i: int|
            0 <= i < self.dirty@.len() ==> (#[trigger] self.dirty@[i]).wf() && self.dirty@[i].zoom
                == self.zoom
        &&& forall|i: int, j: int|
            0 <= i < j < self.dirty@.len() ==> self.dirty@[i].spec_key()
                != self.dirty@[j].spec_key()
    }

    /// An empty cache for a run at the given zoom, area of interest and
    /// tile canvas size.
    pub fn new(zoom: u8, interest: GeoBox, tile_size: u32, provider_base: Vec<u8>) -> (r:
        TileCache)
        requires
            zoom <= MAX_ZOOM,
            interest.wf(),
            0 < tile_size <= crate::geom::MAX_EXTENT,
            3 * (tile_size as int) * (tile_size as int) <= usize::MAX,
        ensures
            r.wf(),
            r.spec_zoom() == zoom,
            r.spec_interest() == interest,
            r.spec_tile_size() == tile_size,
            r.spec_provider_base() == provider_base@,
            r.present@ == Set::<u64>::empty(),
            r.outline_map() == Map::<u64, Canvas>::empty(),
            r.dirty_seq() == Seq::<TileAddress>::empty(),
    {
        TileCache {
            zoom,
            interest,
            tile_size,
            provider_base,
            present: HashSet::new(),
            outlines: HashMap::new(),
            dirty: Vec::new(),
        }
    }

    /// The load decision for an address: already loaded tiles need
    /// nothing; a persisted base whose outline canvas is not in memory
    /// only has the blank outline rebuilt locally — never a second fetch;
    /// an absent tile outside the area of interest is skipped; anything
    /// else must be fetched.
    pub open spec fn spec_plan(self, k: u64, overlaps_interest: bool) -> LoadPlan {
        if self.loaded(k) {
            LoadPlan::AlreadyLoaded
        } else if self.base_present(k) {
            LoadPlan::RestoreOutline
        } else if !overlaps_interest {
            LoadPlan::OutOfInterest
        } else {
            LoadPlan::NeedFetch
        }
    }

    /// Decide what to do for `addr`, whose geographic extent (computed by
    /// the caller from the address) is `tile_box`.
    pub fn plan_load(&self, addr: &TileAddress, tile_box: &GeoBox) -> (r: LoadPlan)
        requires
            self.wf(),
            addr.wf(),
        ensures
            r == self.spec_plan(addr.spec_key(), self.spec_interest().spec_overlaps(*tile_box)),
    {
        let k = addr.key();
        let has_base = self.present.contains(&k);
        let has_outline = self.outlines.contains_key(&k);
        if has_base && has_outline {
            LoadPlan::AlreadyLoaded
        } else if has_base {
            LoadPlan::RestoreOutline
        } else if !self.interest.overlaps(tile_box) {
            LoadPlan::OutOfInterest
        } else {
            LoadPlan::NeedFetch
        }
    }

    /// Rebuild the blank outline canvas of an address whose base imagery
    /// is already persisted, at the run's tile size: the local completion
    /// of a `RestoreOutline` plan. An outline already in memory is kept.
    pub fn restore_outline(&mut self, addr: &TileAddress)
        requires
            old(self).wf(),
            addr.wf(),
        ensures
            final(self).wf(),
            final(self).spec_zoom() == old(self).spec_zoom(),
            final(self).spec_interest() == old(self).spec_interest(),
            final(self).spec_tile_size() == old(self).spec_tile_size(),
            final(self).spec_provider_base() == old(self).spec_provider_base(),
            final(self).present@ == old(self).present@,
            final(self).dirty_seq() == old(self).dirty_seq(),
            old(self).outline_map().contains_key(addr.spec_key()) ==> *final(self) == *old(self),
            !old(self).outline_map().contains_key(addr.spec_key()) ==> {
                &&& final(self).outline_map().dom() == old(self).outline_map().dom().insert(
                    addr.spec_key())
                &&& final(self).outline_map()[addr.spec_key()].width == old(self).spec_tile_size()
                &&& final(self).outline_map()[addr.spec_key()].height == old(self).spec_tile_size()
                &&& (forall|i: int|
                    0 <= i < final(self).outline_map()[addr.spec_key()].pixels@.len()
                        ==> final(self).outline_map()[addr.spec_key()].pixels@[i] == 0)
                &&& (forall|k: u64|
                    k != addr.spec_key() && old(self).outline_map().contains_key(k)
                        ==> final(self).outline_map()[k] == old(self).outline_map()[k])
            },
    {
        let k = addr.key();
        if self.outlines.contains_key(&k) {
            return;
        }
        let outline = Canvas::blank(self.tile_size, self.tile_size);
        self.outlines.insert(k, outline);
    }

    /// Cache idempotence: once an address is loaded, its plan is
    /// `AlreadyLoaded` whatever the interest test says, so no second
    /// fetch is ever requested for it.
    pub proof fn lemma_plan_idempotent(self, k: u64, overlaps_interest: bool)
        requires
            self.loaded(k),
        ensures
            self.spec_plan(k, overlaps_interest) == LoadPlan::AlreadyLoaded,
    {
    }

    /// Install a fetched tile: decode the bytes, record the base imagery
    /// as present, and create the blank outline canvas of matching size.
    /// Returns the decoded base canvas for the caller to persist; it
    /// succeeds exactly when the bytes decode. On a decode failure
    /// nothing changes.
    pub fn install_fetched(&mut self, addr: &TileAddress, bytes: &Vec<u8>) -> (r: Result<
        Canvas,
        LoadError,
    >)
        requires
            old(self).wf(),
            addr.wf(),
            addr.zoom == old(self).spec_zoom(),
        ensures
            final(self).wf(),
            final(self).spec_zoom() == old(self).spec_zoom(),
            final(self).spec_interest() == old(self).spec_interest(),
            final(self).spec_tile_size() == old(self).spec_tile_size(),
            final(self).spec_provider_base() == old(self).spec_provider_base(),
            final(self).dirty_seq() == old(self).dirty_seq(),
            r is Ok <==> rgb_decoded(bytes@) is Some,
            match r {
                Ok(c) => {
                    &&& c.wf()
                    &&& rgb_decoded(bytes@) == Some(
                        (c.width as int, c.height as int, c.pixels@))
                    &&& final(self).present@ == old(self).present@.insert(addr.spec_key())
                    &&& final(self).outline_map().dom() == old(self).outline_map().dom().insert(
                        addr.spec_key())
                    &&& final(self).outline_map()[addr.spec_key()].width == c.width
                    &&& final(self).outline_map()[addr.spec_key()].height == c.height
                    &&& (forall|i: int|
                        0 <= i < final(self).outline_map()[addr.spec_key()].pixels@.len()
                            ==> final(self).outline_map()[addr.spec_key()].pixels@[i] == 0)
                    &&& (forall|k: u64|
                        k != addr.spec_key() && old(self).outline_map().contains_key(k)
                            ==> final(self).outline_map()[k] == old(self).outline_map()[k])
                    &&& final(self).loaded(addr.spec_key())
                },
                Err(e) => e == LoadError::UndecodableImage && *final(self) == *old(self),
            },
    {
        let img = match decode_rgb_image(bytes) {
            Ok(c) => c,
            Err(_) => {
                return Err(LoadError::UndecodableImage);
            },
        };
        let k = addr.key();
        let outline = Canvas::blank(img.width, img.height);
        self.present.insert(k);
        self.outlines.insert(k, outline);
        Ok(img)
    }

    /// Record that a base tile is already persisted (used while loading a
    /// previous run's tiles back). Succeeds exactly on a name of the
    /// `{y}-{x}.jpg` shape whose indices are in range at the run's zoom.
    pub fn register_persisted_tile(&mut self, name: &Vec<u8>) -> (r: Result<
        TileAddress,
        LoadError,
    >)
        requires
            old(self).wf(),
        ensures
            final(self).wf(),
            final(self).spec_zoom() == old(self).spec_zoom(),
            final(self).spec_interest() == old(self).spec_interest(),
            final(self).spec_tile_size() == old(self).spec_tile_size(),
            final(self).spec_provider_base() == old(self).spec_provider_base(),
            final(self).dirty_seq() == old(self).dirty_seq(),
            final(self).outline_map() == old(self).outline_map(),
            match r {
                Ok(a) => {
                    &&& a.wf()
                    &&& a.zoom == old(self).spec_zoom()
                    &&& name@ == tile_name_of(a.y as int, a.x as int, FileKind::BaseJpg)
                    &&& final(self).present@ == old(self).present@.insert(a.spec_key())
                },
                Err(e) => {
                    &&& e == LoadError::PersistedNameParse
                    &&& *final(self) == *old(self)
                    &&& forall|y: u32, x: u32|
                        name@ == tile_name_of(y as int, x as int, FileKind::BaseJpg)
                            ==> !(TileAddress { zoom: old(self).spec_zoom(), x, y }).wf()
                },
            },
    {
        let (y, x) = match parse_tile_name(name, FileKind::BaseJpg) {
            Ok(p) => p,
            Err(_) => {
                return Err(LoadError::PersistedNameParse);
            },
        };
        match TileAddress::new(self.zoom, x, y) {
            Some(a) => {
                let k = a.key();
                self.present.insert(k);
                Ok(a)
            },
            None => {
                proof {
                    crate::names::lemma_tile_name_injective(
                        y as int, x as int, FileKind::BaseJpg);
                }
                Err(LoadError::PersistedNameParse)
            },
        }
    }

    /// Load a persisted outline canvas back (used while loading a
    /// previous run's outlines). Succeeds exactly on a name of the
    /// `{y}-{x}.png` shape with indices in range whose bytes decode; the
    /// stored canvas is the decoded image.
    pub fn register_persisted_outline(&mut self, name: &Vec<u8>, bytes: &Vec<u8>) -> (r: Result<
        TileAddress,
        LoadError,
    >)
        requires
            old(self).wf(),
        ensures
            final(self).wf(),
            final(self).spec_zoom() == old(self).spec_zoom(),
            final(self).spec_interest() == old(self).spec_interest(),
            final(self).spec_tile_size() == old(self).spec_tile_size(),
            final(self).spec_provider_base() == old(self).spec_provider_base(),
            final(self).dirty_seq() == old(self).dirty_seq(),
            final(self).present@ == old(self).present@,
            r is Ok <==> (exists|y: u32, x: u32|
                name@ == #[trigger] tile_name_of(y as int, x as int, FileKind::OutlinePng)
                    && (TileAddress { zoom: old(self).spec_zoom(), x, y }).wf())
                && rgb_decoded(bytes@) is Some,
            match r {
                Ok(a) => {
                    &&& a.wf()
                    &&& a.zoom == old(self).spec_zoom()
                    &&& name@ == tile_name_of(a.y as int, a.x as int, FileKind::OutlinePng)
                    &&& final(self).outline_map().dom() == old(self).outline_map().dom().insert(
                        a.spec_key())
                    &&& final(self).outline_map()[a.spec_key()].wf()
                    &&& rgb_decoded(bytes@) == Some(
                        (
                            final(self).outline_map()[a.spec_key()].width as int,
                            final(self).outline_map()[a.spec_key()].height as int,
                            final(self).outline_map()[a.spec_key()].pixels@,
                        ))
                    &&& (forall|k: u64|
                        k != a.spec_key() && old(self).outline_map().contains_key(k)
                            ==> final(self).outline_map()[k] == old(self).outline_map()[k])
                },
                Err(e) => {
                    &&& *final(self) == *old(self)
                    &&& (e == LoadError::PersistedNameParse ==> forall|y: u32, x: u32|
                        name@ == tile_name_of(y as int, x as int, FileKind::OutlinePng)
                            ==> !(TileAddress { zoom: old(self).spec_zoom(), x, y }).wf())
                    &&& (e == LoadError::UndecodableImage ==> rgb_decoded(bytes@) is None)
                    &&& (e == LoadError::PersistedNameParse || e == LoadError::UndecodableImage)
                },
            },
    {
        let (y, x) = match parse_tile_name(name, FileKind::OutlinePng) {
            Ok(p) => p,
            Err(_) => {
                return Err(LoadError::PersistedNameParse);
            },
        };
        let a = match TileAddress::new(self.zoom, x, y) {
            Some(a) => a,
            None => {
                proof {
                    crate::names::lemma_tile_name_injective(
                        y as int, x as int, FileKind::OutlinePng);
                }
                return Err(LoadError::PersistedNameParse);
            },
        };
        let img = match decode_rgb_image(bytes) {
            Ok(c) => c,
            Err(_) => {
                return Err(LoadError::UndecodableImage);
            },
        };
        let k = a.key();
        self.outlines.insert(k, img);
        Ok(a)
    }

    /// Whether an address is already on the dirty list.
    fn dirty_contains(&self, k: u64) -> (r: bool)
        ensures
            r == exists|i: int|
                0 <= i < self.dirty@.len() && (#[trigger] self.dirty@[i]).spec_key() == k,
    {
        let n = self.dirty.len();
        let mut i: usize = 0;
        while i < n
            invariant
                0 <= i <= n,
                n == self.dirty@.len(),
                forall|t: int| 0 <= t < i ==> (#[trigger] self.dirty@[t]).spec_key() != k,
            decreases n - i,
        {
            if self.dirty[i].key() == k {
                return true;
            }
            i += 1;
        }
        false
    }

    /// Record that an address's outline canvas has unpersisted drawing.
    /// Idempotent: an address already marked is not marked again.
    pub fn mark_dirty(&mut self, addr: &TileAddress)
        requires
            old(self).wf(),
            addr.wf(),
            addr.zoom == old(self).spec_zoom(),
        ensures
            final(self).wf(),
            final(self).spec_zoom() == old(self).spec_zoom(),
            final(self).spec_interest() == old(self).spec_interest(),
            final(self).spec_tile_size() == old(self).spec_tile_size(),
            final(self).spec_provider_base() == old(self).spec_provider_base(),
            final(self).present@ == old(self).present@,
            final(self).outline_map() == old(self).outline_map(),
            final(self).dirty_seq() == if exists|i: int|
                0 <= i < old(self).dirty_seq().len() && (#[trigger] old(self).dirty_seq()[i])
                    .spec_key() == addr.spec_key() {
                old(self).dirty_seq()
            } else {
                old(self).dirty_seq().push(*addr)
            },
    {
        let k = addr.key();
        if !self.dirty_contains(k) {
            self.dirty.push(*addr);
        }
    }

    /// The outline canvas of an address, if loaded.
    pub fn outline_of(&self, addr: &TileAddress) -> (r: Option<&Canvas>)
        ensures
            match r {
                Some(c) => self.outline_map().contains_key(addr.spec_key()) && *c
                    == self.outline_map()[addr.spec_key()],
                None => !self.outline_map().contains_key(addr.spec_key()),
            },
    {
        let k = addr.key();
        self.outlines.get(&k)
    }

    /// Whether both layers of an address are loaded.
    pub fn is_loaded(&self, addr: &TileAddress) -> (r: bool)
        ensures
            r == self.loaded(addr.spec_key()),
    {
        let k = addr.key();
        self.present.contains(&k) && self.outlines.contains_key(&k)
    }

    /// Draw a filled polygon (vertices already projected into this tile's
    /// pixel space) onto the outline canvas of a loaded address.
    pub fn draw_outline(&mut self, addr: &TileAddress, pts: &Vec<(i32, i32)>, color: (
        u8,
        u8,
        u8,
    )) -> (r: Result<(), CacheError>)
        requires
            old(self).wf(),
            addr.wf(),
            pts@.len() == 0 || pts@.first() != pts@.last(),
            pts@.len() > 0 && old(self).outline_map().contains_key(addr.spec_key()) ==> old(
                self).outline_map()[addr.spec_key()].height >= 1,
            forall|i: int|
                0 <= i < pts@.len() ==> -crate::geom::PIXEL_BOUND <= (#[trigger] pts@[i]).0
                    <= crate::geom::PIXEL_BOUND && -crate::geom::PIXEL_BOUND <= pts@[i].1
                    <= crate::geom::PIXEL_BOUND,
        ensures
            final(self).wf(),
            final(self).spec_zoom() == old(self).spec_zoom(),
            final(self).spec_interest() == old(self).spec_interest(),
            final(self).spec_tile_size() == old(self).spec_tile_size(),
            final(self).spec_provider_base() == old(self).spec_provider_base(),
            final(self).present@ == old(self).present@,
            final(self).dirty_seq() == old(self).dirty_seq(),
            match r {
                Ok(_) => {
                    &&& old(self).outline_map().contains_key(addr.spec_key())
                    &&& final(self).outline_map().dom() == old(self).outline_map().dom()
                    &&& final(self).outline_map()[addr.spec_key()].pixels@ == crate::canvas::polygon_drawn(
                        old(self).outline_map()[addr.spec_key()].width as int,
                        old(self).outline_map()[addr.spec_key()].height as int,
                        old(self).outline_map()[addr.spec_key()].pixels@,
                        crate::canvas::points_view(pts@),
                        color,
                    )
                    &&& final(self).outline_map()[addr.spec_key()].width == old(
                        self).outline_map()[addr.spec_key()].width
                    &&& final(self).outline_map()[addr.spec_key()].height == old(
                        self).outline_map()[addr.spec_key()].height
                    &&& (forall|k: u64|
                        k != addr.spec_key() && old(self).outline_map().contains_key(k)
                            ==> final(self).outline_map()[k] == old(self).outline_map()[k])
                },
                Err(e) => e == CacheError::NotLoaded && !old(self).outline_map().contains_key(
                    addr.spec_key()) && final(self).outline_map() == old(self).outline_map(),
            },
    {
        let k = addr.key();
        let mut c = match self.outlines.remove(&k) {
            Some(c) => c,
            None => {
                proof {
                    assert(self.outlines@ =~= old(self).outlines@);
                }
                return Err(CacheError::NotLoaded);
            },
        };
        crate::canvas::draw_polygon(&mut c, pts, color);
        self.outlines.insert(k, c);
        proof {
            assert(self.outlines@.dom() =~= old(self).outlines@.dom());
        }
        Ok(())
    }

    /// Hand out the dirty outline addresses for persisting, in
    /// first-marked order, dropping any dirty address whose outline
    /// canvas is missing; the dirty list is cleared.
    pub fn flush_dirty(&mut self) -> (r: Vec<TileAddress>)
        requires
            old(self).wf(),
        ensures
            final(self).wf(),
            final(self).spec_zoom() == old(self).spec_zoom(),
            final(self).spec_interest() == old(self).spec_interest(),
            final(self).spec_tile_size() == old(self).spec_tile_size(),
            final(self).spec_provider_base() == old(self).spec_provider_base(),
            final(self).present@ == old(self).present@,
            final(self).outline_map() == old(self).outline_map(),
            final(self).dirty_seq() == Seq::<TileAddress>::empty(),
            r@ == flushable(old(self).dirty_seq(), old(self).outline_map().dom()),
    {
        let mut r: Vec<TileAddress> = Vec::new();
        let n = self.dirty.len();
        let mut i: usize = 0;
        while i < n
            invariant
                0 <= i <= n,
                n == self.dirty@.len(),
                self == old(self),
                r@ == flushable(self.dirty@.subrange(0, i as int), self.outlines@.dom()),
            decreases n - i,
        {
            let a = self.dirty[i];
            let k = a.key();
            proof {
                assert(self.dirty@.subrange(0, i as int + 1).drop_last() =~= self.dirty@.subrange(
                    0, i as int));
                assert(self.dirty@.subrange(0, i as int + 1).last() == self.dirty@[i as int]);
            }
            if self.outlines.contains_key(&k) {
                r.push(a);
            }
            i += 1;
        }
        proof {
            assert(self.dirty@.subrange(0, n as int) =~= self.dirty@);
        }
        self.dirty.clear();
        r
    }

    /// The persisted file name for an address's base imagery.
    pub fn base_file_name(addr: &TileAddress) -> (r: Vec<u8>)
        ensures
            r@ == tile_name_of(addr.y as int, addr.x as int, FileKind::BaseJpg),
    {
        make_tile_name(addr.y, addr.x, FileKind::BaseJpg)
    }

    /// The persisted file name for an address's outline canvas.
    pub fn outline_file_name(addr: &TileAddress) -> (r: Vec<u8>)
        ensures
            r@ == tile_name_of(addr.y as int, addr.x as int, FileKind::OutlinePng),
    {
        make_tile_name(addr.y, addr.x, FileKind::OutlinePng)
    }

    /// The provider URL path for fetching an address.
    pub fn fetch_url(&self, addr: &TileAddress) -> (r: Vec<u8>)
        ensures
            r@ == url_path_of(
                self.spec_provider_base(), self.spec_zoom() as int, addr.y as int, addr.x as int),
    {
        make_url_path(&self.provider_base, self.zoom, addr.y, addr.x)
    }
}

/// The dirty addresses that have an outline canvas, in order.
pub open spec fn flushable(s: Seq<TileAddress>, dom: Set<u64>) -> Seq<TileAddress>
    decreases s.len(),
{
    if s.len() == 0 {
        Seq::empty()
    } else {
        let p = flushable(s.drop_last(), dom);
        if dom.contains(s.last().spec_key()) {
            p.push(s.last())
        } else {
            p
        }
    }
}

} // verus!
