use tile_mosaic::cache::{CacheError, LoadError, LoadPlan, TileCache};
use tile_mosaic::geom::GeoBox;
use tile_mosaic::tiles::TileAddress;

fn png_bytes(w: u32, h: u32, rgb: [u8; 3]) -> Vec<u8> {
    let img = image::RgbImage::from_pixel(w, h, image::Rgb(rgb));
    let mut buf = std::io::Cursor::new(Vec::new());
    img.write_to(&mut buf, image::ImageOutputFormat::Png).unwrap();
    buf.into_inner()
}

fn interest() -> GeoBox {
    GeoBox::new(559_300_000, 555_600_000, 373_000_000, 379_000_000).unwrap()
}

fn fresh_cache() -> TileCache {
    TileCache::new(17, interest(), 256, b"https://tiles.example/imagery".to_vec())
}

fn overlapping_box() -> GeoBox {
    GeoBox::new(557_600_000, 557_500_000, 376_000_000, 376_100_000).unwrap()
}

fn far_box() -> GeoBox {
    GeoBox::new(100_000_000, 99_000_000, -500_000_000, -499_000_000).unwrap()
}

// Cache idempotence: two load rounds for one address perform exactly one
// fetch, counted on the plans the cache hands out.
#[test]
fn ensure_loaded_twice_fetches_once() {
    let mut cache = fresh_cache();
    let addr = TileAddress::new(17, 79969, 41357).unwrap();
    let tile_box = overlapping_box();
    let mut fetches = 0;
    for _round in 0..2 {
        match cache.plan_load(&addr, &tile_box) {
            LoadPlan::NeedFetch => {
                fetches += 1;
                let fetched = png_bytes(64, 64, [9, 9, 9]);
                let base = cache.install_fetched(&addr, &fetched).unwrap();
                assert_eq!((base.width, base.height), (64, 64));
            }
            LoadPlan::RestoreOutline => cache.restore_outline(&addr),
            LoadPlan::AlreadyLoaded => {}
            LoadPlan::OutOfInterest => panic!("tile overlaps the area of interest"),
        }
    }
    assert_eq!(fetches, 1);
    assert_eq!(cache.plan_load(&addr, &tile_box), LoadPlan::AlreadyLoaded);
}

#[test]
fn absent_tile_outside_interest_is_skipped() {
    let cache = fresh_cache();
    let addr = TileAddress::new(17, 100, 100).unwrap();
    assert_eq!(cache.plan_load(&addr, &far_box()), LoadPlan::OutOfInterest);
}

#[test]
fn known_tile_outside_interest_is_still_completed_locally() {
    let mut cache = fresh_cache();
    let addr = TileAddress::new(17, 100, 100).unwrap();
    let name = TileCache::base_file_name(&addr);
    cache.register_persisted_tile(&name).unwrap();
    // The base is persisted but its outline canvas is not: rebuild the
    // blank outline locally, never fetch.
    assert_eq!(cache.plan_load(&addr, &far_box()), LoadPlan::RestoreOutline);
    cache.restore_outline(&addr);
    assert_eq!(cache.plan_load(&addr, &far_box()), LoadPlan::AlreadyLoaded);
}

// A rerun over unchanged storage performs zero fetches: every persisted
// base is a hit, and only its blank outline is rebuilt in memory.
#[test]
fn rerun_over_persisted_tiles_fetches_nothing() {
    let mut cache = fresh_cache();
    let addrs = [
        TileAddress::new(17, 79969, 41357).unwrap(),
        TileAddress::new(17, 79970, 41357).unwrap(),
    ];
    for a in &addrs {
        cache.register_persisted_tile(&TileCache::base_file_name(a)).unwrap();
    }
    let mut fetches = 0;
    for a in &addrs {
        match cache.plan_load(a, &overlapping_box()) {
            LoadPlan::NeedFetch => fetches += 1,
            LoadPlan::RestoreOutline => cache.restore_outline(a),
            LoadPlan::AlreadyLoaded | LoadPlan::OutOfInterest => {}
        }
    }
    assert_eq!(fetches, 0);
    for a in &addrs {
        assert!(cache.is_loaded(a));
        let outline = cache.outline_of(a).unwrap();
        assert_eq!((outline.width, outline.height), (256, 256));
        assert!(outline.pixels.iter().all(|&b| b == 0));
    }
}

#[test]
fn undecodable_fetch_changes_nothing() {
    let mut cache = fresh_cache();
    let addr = TileAddress::new(17, 79969, 41357).unwrap();
    let garbage = b"not an image at all".to_vec();
    assert_eq!(cache.install_fetched(&addr, &garbage).unwrap_err(), LoadError::UndecodableImage);
    assert_eq!(cache.plan_load(&addr, &overlapping_box()), LoadPlan::NeedFetch);
}

#[test]
fn outline_canvas_matches_decoded_size_and_starts_blank() {
    let mut cache = fresh_cache();
    let addr = TileAddress::new(17, 79969, 41357).unwrap();
    cache.install_fetched(&addr, &png_bytes(32, 16, [200, 100, 50])).unwrap();
    let outline = cache.outline_of(&addr).unwrap();
    assert_eq!((outline.width, outline.height), (32, 16));
    assert_eq!(outline.pixels.len(), 32 * 16 * 3);
    assert!(outline.pixels.iter().all(|&b| b == 0));
}

#[test]
fn persisted_names_load_back() {
    let mut cache = fresh_cache();
    let a = cache.register_persisted_tile(&b"41357-79969.jpg".to_vec()).unwrap();
    assert_eq!((a.zoom, a.x, a.y), (17, 79969, 41357));
    let o = cache
        .register_persisted_outline(&b"41357-79969.png".to_vec(), &png_bytes(8, 8, [1, 2, 3]))
        .unwrap();
    assert_eq!((o.x, o.y), (79969, 41357));
    assert!(cache.is_loaded(&a));
}

#[test]
fn bad_persisted_names_are_fatal() {
    let mut cache = fresh_cache();
    assert_eq!(
        cache.register_persisted_tile(&b"notatile.jpg".to_vec()).unwrap_err(),
        LoadError::PersistedNameParse
    );
    // Indices out of range at this zoom are rejected too.
    assert_eq!(
        cache.register_persisted_tile(&b"41357-4294967295.jpg".to_vec()).unwrap_err(),
        LoadError::PersistedNameParse
    );
    assert_eq!(
        cache
            .register_persisted_outline(&b"x.png".to_vec(), &png_bytes(8, 8, [0, 0, 0]))
            .unwrap_err(),
        LoadError::PersistedNameParse
    );
    assert_eq!(
        cache
            .register_persisted_outline(&b"1-1.png".to_vec(), &b"junk".to_vec())
            .unwrap_err(),
        LoadError::UndecodableImage
    );
}

#[test]
fn drawing_requires_a_loaded_outline() {
    let mut cache = fresh_cache();
    let addr = TileAddress::new(17, 79969, 41357).unwrap();
    let pts = vec![(1, 1), (10, 1), (10, 10)];
    assert_eq!(cache.draw_outline(&addr, &pts, (0, 255, 0)).unwrap_err(), CacheError::NotLoaded);
}

#[test]
fn drawing_paints_the_classification_color() {
    let mut cache = fresh_cache();
    let addr = TileAddress::new(17, 79969, 41357).unwrap();
    cache.install_fetched(&addr, &png_bytes(64, 64, [9, 9, 9])).unwrap();
    let pts = vec![(8, 8), (40, 8), (40, 40), (8, 40)];
    cache.draw_outline(&addr, &pts, (0, 255, 0)).unwrap();
    let outline = cache.outline_of(&addr).unwrap();
    // The polygon's interior pixel (20, 20) now carries the color.
    let off = 3 * (20 * 64 + 20);
    assert_eq!(&outline.pixels[off..off + 3], &[0, 255, 0]);
    // A pixel outside the polygon is untouched.
    let off_out = 3 * (60 * 64 + 60);
    assert_eq!(&outline.pixels[off_out..off_out + 3], &[0, 0, 0]);
}

#[test]
fn flush_lists_dirty_outlines_in_first_marked_order() {
    let mut cache = fresh_cache();
    let a = TileAddress::new(17, 79969, 41357).unwrap();
    let b = TileAddress::new(17, 79970, 41357).unwrap();
    let c = TileAddress::new(17, 79971, 41357).unwrap();
    cache.install_fetched(&a, &png_bytes(8, 8, [1, 1, 1])).unwrap();
    cache.install_fetched(&b, &png_bytes(8, 8, [1, 1, 1])).unwrap();
    // c never gets an outline canvas; its mark is dropped at flush.
    cache.mark_dirty(&b);
    cache.mark_dirty(&a);
    cache.mark_dirty(&c);
    cache.mark_dirty(&b); // marking twice keeps one entry
    let flushed = cache.flush_dirty();
    let keys: Vec<(u32, u32)> = flushed.iter().map(|t| (t.x, t.y)).collect();
    assert_eq!(keys, vec![(79970, 41357), (79969, 41357)]);
    // Flushing cleared the list.
    assert!(cache.flush_dirty().is_empty());
}

#[test]
fn file_names_and_fetch_url() {
    let cache = fresh_cache();
    let addr = TileAddress::new(17, 79969, 41357).unwrap();
    assert_eq!(TileCache::base_file_name(&addr), b"41357-79969.jpg".to_vec());
    assert_eq!(TileCache::outline_file_name(&addr), b"41357-79969.png".to_vec());
    assert_eq!(
        cache.fetch_url(&addr),
        b"https://tiles.example/imagery/17/41357/79969".to_vec()
    );
}
