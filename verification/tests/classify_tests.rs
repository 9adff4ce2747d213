use std::collections::HashMap;
use tile_mosaic::classify::{Classification, DEFAULT_AREA_THRESHOLD_SQ_DM, PolygonError, classify,
    color_of, resolve_polygon};
use tile_mosaic::geom::GeoCoordinate;

#[test]
fn classification_thresholds() {
    let t = DEFAULT_AREA_THRESHOLD_SQ_DM; // 100 m^2 in dm^2
    // 99.9 m^2 = 9990 dm^2 is below; 100.1 m^2 = 10010 dm^2 is normal.
    assert_eq!(classify(9990, false, t), Classification::BelowAreaThreshold);
    assert_eq!(classify(10010, false, t), Classification::Normal);
    // Exactly at the boundary is not below it.
    assert_eq!(classify(10000, false, t), Classification::Normal);
    assert_eq!(classify(9999, false, t), Classification::BelowAreaThreshold);
}

#[test]
fn classification_uses_absolute_area() {
    let t = DEFAULT_AREA_THRESHOLD_SQ_DM;
    assert_eq!(classify(-9990, false, t), Classification::BelowAreaThreshold);
    assert_eq!(classify(-10010, false, t), Classification::Normal);
    assert_eq!(classify(i64::MIN, false, t), Classification::Normal);
}

#[test]
fn excluded_tags_apply_above_the_threshold() {
    let t = DEFAULT_AREA_THRESHOLD_SQ_DM;
    assert_eq!(classify(20000, true, t), Classification::ExcludedTags);
    assert_eq!(classify(50, true, t), Classification::BelowAreaThreshold);
}

#[test]
fn color_table_is_total_and_stable() {
    assert_eq!(color_of(Classification::Unclassified), (0, 0, 0));
    assert_eq!(color_of(Classification::BelowAreaThreshold), (255, 0, 0));
    assert_eq!(color_of(Classification::Normal), (0, 255, 0));
    assert_eq!(color_of(Classification::ExcludedTags), (255, 255, 0));
}

fn node_map(ids: &[i64]) -> HashMap<i64, GeoCoordinate> {
    let mut m = HashMap::new();
    for &id in ids {
        m.insert(id, GeoCoordinate::new(id * 10, id * 20));
    }
    m
}

#[test]
fn degenerate_polygon_is_malformed_not_classified() {
    let nodes = node_map(&[1, 2]);
    let r = resolve_polygon(&vec![1, 2], &nodes);
    assert_eq!(r.unwrap_err(), PolygonError::MalformedPolygon);
}

#[test]
fn unresolved_vertex_is_malformed() {
    let nodes = node_map(&[1, 2, 3]);
    let r = resolve_polygon(&vec![1, 2, 99], &nodes);
    assert_eq!(r.unwrap_err(), PolygonError::MalformedPolygon);
}

#[test]
fn resolution_keeps_vertex_order() {
    let nodes = node_map(&[1, 2, 3]);
    let cs = resolve_polygon(&vec![3, 1, 2], &nodes).unwrap();
    assert_eq!(cs.len(), 3);
    assert_eq!(cs[0], GeoCoordinate::new(30, 60));
    assert_eq!(cs[1], GeoCoordinate::new(10, 20));
    assert_eq!(cs[2], GeoCoordinate::new(20, 40));
}

// The area threshold against the real geodesic computation: a small
// square (around 18 m^2 at this latitude) classifies below the 100 m^2
// threshold, a much larger one (around 640 m^2) classifies normal.
#[test]
fn classification_with_real_geodesic_areas() {
    for (side_deg, expected) in [
        (0.00005, Classification::BelowAreaThreshold),
        (0.0003, Classification::Normal),
    ] {
        let ring: Vec<geo::Coord<f64>> = vec![
            geo::Coord { x: 37.0, y: 55.0 },
            geo::Coord { x: 37.0 + side_deg, y: 55.0 },
            geo::Coord { x: 37.0 + side_deg, y: 55.0 + side_deg },
            geo::Coord { x: 37.0, y: 55.0 + side_deg },
            geo::Coord { x: 37.0, y: 55.0 },
        ];
        let poly = geo::Polygon::new(geo::LineString::new(ring), vec![]);
        let area_m2 = geo::GeodesicArea::geodesic_area_signed(&poly);
        let area_sq_dm = (area_m2 * 100.0) as i64;
        assert_eq!(classify(area_sq_dm, false, DEFAULT_AREA_THRESHOLD_SQ_DM), expected);
    }
}
