use tile_mosaic::geom::{GeoBox, GeoCoordinate, PIXEL_BOUND, pixel_to_geo, project_axis,
    project_to_pixel, saturate_pixel, unproject_axis};

fn sample_box() -> GeoBox {
    // A 0.01-degree-wide box, as 1e-7-degree units.
    GeoBox::new(557_600_000, 557_500_000, 376_000_000, 376_100_000).unwrap()
}

#[test]
fn box_construction_rejects_degenerate_bounds() {
    assert!(GeoBox::new(10, 20, 0, 1).is_none()); // north below south
    assert!(GeoBox::new(20, 10, 5, 5).is_none()); // west == east
    assert!(GeoBox::new(2_000_000_000, 10, 0, 1).is_none()); // latitude out of range
    assert!(GeoBox::new(20, 10, 0, 1).is_some());
}

#[test]
fn projection_known_values() {
    // Longitude interpolates across [west, east] -> [0, width].
    let b = GeoBox::new(2560, 0, 0, 2560).unwrap();
    let c = GeoCoordinate::new(10, 2550);
    let (px, py) = project_to_pixel(&c, &b, 256, 256);
    assert_eq!(px, 1); // (10 - 0) * 256 / 2560
    assert_eq!(py, 1); // (2560 - 2550) * 256 / 2560
    // The northwest corner maps to the origin; latitude grows downward.
    let nw = GeoCoordinate::new(0, 2560);
    assert_eq!(project_to_pixel(&nw, &b, 256, 256), (0, 0));
    let se = GeoCoordinate::new(2560, 0);
    assert_eq!(project_to_pixel(&se, &b, 256, 256), (256, 256));
}

#[test]
fn projection_outside_tile_is_negative_or_past_extent() {
    let b = GeoBox::new(2560, 0, 0, 2560).unwrap();
    let west_of = GeoCoordinate::new(-30, 2500);
    let (px, _) = project_to_pixel(&west_of, &b, 256, 256);
    assert!(px < 0);
    let east_of = GeoCoordinate::new(2600, 2500);
    let (px2, _) = project_to_pixel(&east_of, &b, 256, 256);
    assert!(px2 > 256);
}

#[test]
fn projection_round_trip_stays_within_one_pixel() {
    let b = sample_box();
    let span_lon = 376_100_000i64 - 376_000_000;
    let span_lat = 557_600_000i64 - 557_500_000;
    let coords = [
        (376_000_000i64, 557_500_000i64),
        (376_012_345, 557_554_321),
        (376_099_999, 557_599_999),
        (376_050_000, 557_550_000),
    ];
    for (lon, lat) in coords {
        let c = GeoCoordinate::new(lon, lat);
        let (px, py) = project_to_pixel(&c, &b, 256, 256);
        assert!((0..=256).contains(&px) && (0..=256).contains(&py));
        let back = pixel_to_geo(px as i64, py as i64, &b, 256, 256);
        // Within one pixel's width of the original on each axis.
        assert!((lon - back.lon_e7).abs() <= span_lon / 256 + 1);
        assert!((lat - back.lat_e7).abs() <= span_lat / 256 + 1);
    }
}

#[test]
fn axis_projection_floors_toward_negative_infinity() {
    // (v - lo) * extent / span, floored: -1 microdegree is pixel -1, not 0.
    assert_eq!(project_axis(-1, 0, 2560, 256), -1);
    assert_eq!(project_axis(-10, 0, 2560, 256), -1);
    assert_eq!(project_axis(-11, 0, 2560, 256), -2);
    assert_eq!(project_axis(9, 0, 2560, 256), 0);
}

#[test]
fn axis_unprojection_known_values() {
    assert_eq!(unproject_axis(0, 100, 2660, 256), 100);
    assert_eq!(unproject_axis(256, 100, 2660, 256), 2660);
    assert_eq!(unproject_axis(128, 100, 2660, 256), 1380);
}

#[test]
fn saturation_clamps_into_the_pixel_range() {
    assert_eq!(saturate_pixel(5_000_000_000), PIXEL_BOUND);
    assert_eq!(saturate_pixel(-5_000_000_000), -PIXEL_BOUND);
    assert_eq!(saturate_pixel(-7), -7);
}

#[test]
fn overlap_is_strict() {
    let a = GeoBox::new(100, 0, 0, 100).unwrap();
    let touching = GeoBox::new(100, 0, 100, 200).unwrap();
    assert!(!a.overlaps(&touching)); // shared edge only
    let b = GeoBox::new(150, 50, 50, 150).unwrap();
    assert!(a.overlaps(&b));
    assert!(b.overlaps(&a));
    let far = GeoBox::new(500, 400, 400, 500).unwrap();
    assert!(!a.overlaps(&far));
}

#[test]
fn containment_is_closed() {
    let a = GeoBox::new(100, 0, 0, 100).unwrap();
    assert!(a.contains(&GeoCoordinate::new(0, 0)));
    assert!(a.contains(&GeoCoordinate::new(100, 100)));
    assert!(!a.contains(&GeoCoordinate::new(101, 50)));
}
