use tile_mosaic::cache::TileCache;
use tile_mosaic::classify::Classification;
use tile_mosaic::geom::{GeoBox, GeoCoordinate};
use tile_mosaic::raster::{project_and_strip, rasterize_polygon, touched_tiles};
use tile_mosaic::tiles::TileAddress;

fn png_bytes(w: u32, h: u32, rgb: [u8; 3]) -> Vec<u8> {
    let img = image::RgbImage::from_pixel(w, h, image::Rgb(rgb));
    let mut buf = std::io::Cursor::new(Vec::new());
    img.write_to(&mut buf, image::ImageOutputFormat::Png).unwrap();
    buf.into_inner()
}

fn e7(deg: f64) -> i64 {
    (deg * 1e7).round() as i64
}

fn tile_box(t: &slippy_map_tiles::Tile) -> GeoBox {
    GeoBox::new(
        e7(t.top() as f64),
        e7(t.bottom() as f64),
        e7(t.left() as f64),
        e7(t.right() as f64),
    )
    .unwrap()
}

#[test]
fn touched_tiles_deduplicates_by_address() {
    let raw = vec![(79969, 41357), (79970, 41357), (79969, 41357), (79969, 41358)];
    let tiles = touched_tiles(17, &raw);
    assert_eq!(tiles.len(), 3);
    let mut keys: Vec<u64> = tiles.iter().map(|t| t.key()).collect();
    keys.sort();
    keys.dedup();
    assert_eq!(keys.len(), 3);
}

#[test]
fn closing_point_is_stripped_before_drawing() {
    let b = GeoBox::new(2560, 0, 0, 2560).unwrap();
    // A ring whose last vertex repeats the first.
    let poly = vec![
        GeoCoordinate::new(10, 2550),
        GeoCoordinate::new(500, 2550),
        GeoCoordinate::new(500, 2000),
        GeoCoordinate::new(10, 2550),
    ];
    let pts = project_and_strip(&poly, &b, 256, 256);
    assert_eq!(pts.len(), 3);
    assert_ne!(pts[0], *pts.last().unwrap());
    // A fully degenerate ring collapses to its single distinct vertex.
    let degenerate = vec![GeoCoordinate::new(10, 2550); 4];
    assert_eq!(project_and_strip(&degenerate, &b, 256, 256).len(), 1);
}

// Polygon spanning two tiles: a rectangle whose vertices fall in two
// horizontally adjacent tiles is drawn into both outline canvases.
#[test]
fn polygon_spanning_two_tiles_draws_into_both() {
    let zoom = 17u8;
    let (x1, y1) = slippy_map_tiles::lat_lon_to_tile(55.7558, 37.6173, zoom);
    let t1 = slippy_map_tiles::Tile::new(zoom, x1, y1).unwrap();
    let t2 = slippy_map_tiles::Tile::new(zoom, x1 + 1, y1).unwrap();
    let b1 = tile_box(&t1);
    let b2 = tile_box(&t2);
    // Rectangle from the middle of tile 1 to the middle of tile 2,
    // vertically centered well inside both.
    let lat_mid = (b1.north_e7 + b1.south_e7) / 2;
    let lat_d = (b1.north_e7 - b1.south_e7) / 8;
    let lon_a = (b1.west_e7 + b1.east_e7) / 2;
    let lon_b = (b2.west_e7 + b2.east_e7) / 2;
    let poly = vec![
        GeoCoordinate::new(lon_a, lat_mid - lat_d),
        GeoCoordinate::new(lon_b, lat_mid - lat_d),
        GeoCoordinate::new(lon_b, lat_mid + lat_d),
        GeoCoordinate::new(lon_a, lat_mid + lat_d),
        GeoCoordinate::new(lon_a, lat_mid - lat_d),
    ];
    // Tile membership from the real per-vertex slippy indices.
    let raw: Vec<(u32, u32)> = poly
        .iter()
        .map(|c| {
            slippy_map_tiles::lat_lon_to_tile(
                (c.lat_e7 as f64 / 1e7) as f32,
                (c.lon_e7 as f64 / 1e7) as f32,
                zoom,
            )
        })
        .collect();
    let tiles = touched_tiles(zoom, &raw);
    assert_eq!(tiles.len(), 2);
    let boxes: Vec<GeoBox> = tiles
        .iter()
        .map(|a| tile_box(&slippy_map_tiles::Tile::new(zoom, a.x, a.y).unwrap()))
        .collect();

    let interest = GeoBox::new(559_300_000, 555_600_000, 373_000_000, 379_000_000).unwrap();
    let mut cache = TileCache::new(zoom, interest, 256, b"https://tiles.example".to_vec());
    for a in &tiles {
        cache.install_fetched(a, &png_bytes(256, 256, [7, 7, 7])).unwrap();
    }
    rasterize_polygon(&mut cache, &poly, &tiles, &boxes, Classification::Normal);

    // Both tiles were marked dirty and both outline canvases now hold
    // green pixels.
    let flushed = cache.flush_dirty();
    assert_eq!(flushed.len(), 2);
    for a in &tiles {
        let outline = cache.outline_of(a).unwrap();
        let green = outline
            .pixels
            .chunks_exact(3)
            .filter(|p| p == &[0u8, 255, 0])
            .count();
        assert!(green > 0, "tile ({}, {}) holds no drawing", a.x, a.y);
    }
}

#[test]
fn unloaded_tiles_are_skipped_silently() {
    let zoom = 17u8;
    let interest = GeoBox::new(559_300_000, 555_600_000, 373_000_000, 379_000_000).unwrap();
    let mut cache = TileCache::new(zoom, interest, 256, b"https://tiles.example".to_vec());
    let a = TileAddress::new(zoom, 79969, 41357).unwrap();
    let loaded = TileAddress::new(zoom, 79970, 41357).unwrap();
    cache.install_fetched(&loaded, &png_bytes(64, 64, [7, 7, 7])).unwrap();
    let b = GeoBox::new(2560, 0, 0, 2560).unwrap();
    let poly = vec![
        GeoCoordinate::new(100, 2000),
        GeoCoordinate::new(2000, 2000),
        GeoCoordinate::new(2000, 300),
    ];
    // Both tiles are listed; only the loaded one is drawn, no error.
    rasterize_polygon(&mut cache, &poly, &vec![a, loaded], &vec![b, b], Classification::Normal);
    assert!(cache.outline_of(&a).is_none());
    let outline = cache.outline_of(&loaded).unwrap();
    assert!(outline.pixels.iter().any(|&px| px != 0));
}
