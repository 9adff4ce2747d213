//! Polygon classification and the fixed color table.
//!
//! A building polygon is classified from its geodesic area (computed
//! outside the library, handed in as square decimeters) and from whether
//! its metadata carries excluded tags. Polygons with fewer than three
//! vertices, or with an unresolved vertex reference, are rejected before
//! classification and produce no raster output.

use vstd::prelude::*;
use std::collections::HashMap;
use crate::geom::GeoCoordinate;

verus! {

broadcast use vstd::std_specs::hash::group_hash_axioms;

/// The default classification threshold: 100 square meters, in square
/// decimeters.
pub const DEFAULT_AREA_THRESHOLD_SQ_DM: i64 = 10_000;

/// The category assigned to a polygon, controlling its rendered color.
#[derive(Clone, Copy, Debug, PartialEq, Eq, Structural)]
pub enum Classification {
    Unclassified,
    BelowAreaThreshold,
    Normal,
    ExcludedTags,
}

/// The fixed color table: total over the classifications and stable, so
/// repeated runs on unchanged input draw identical bytes.
pub open spec fn spec_color_of(c: Classification) -> (u8, u8, u8) {
    match c {
        Classification::Unclassified => (0u8, 0u8, 0u8),
        Classification::BelowAreaThreshold => (255u8, 0u8, 0u8),
        Classification::Normal => (0u8, 255u8, 0u8),
        Classification::ExcludedTags => (255u8, 255u8, 0u8),
    }
}

pub fn color_of(c: Classification) -> (rgb: (u8, u8, u8))
    ensures
        rgb == spec_color_of(c),
{
    match c {
        Classification::Unclassified => (0, 0, 0),
        Classification::BelowAreaThreshold => (255, 0, 0),
        Classification::Normal => (0, 255, 0),
        Classification::ExcludedTags => (255, 255, 0),
    }
}

/// The magnitude of a signed area.
pub open spec fn abs_area(a: int) -> int {
    if a < 0 {
        -a
    } else {
        a
    }
}

/// Classify a polygon whose signed geodesic area (in square decimeters)
/// and excluded-tag flag are known: below the threshold by absolute area
/// first, then excluded tags, otherwise normal.
pub open spec fn spec_classify(area_sq_dm: int, excluded: bool, threshold_sq_dm: int)
    -> Classification {
    if abs_area(area_sq_dm) < threshold_sq_dm {
        Classification::BelowAreaThreshold
    } else if excluded {
        Classification::ExcludedTags
    } else {
        Classification::Normal
    }
}

pub fn classify(area_sq_dm: i64, excluded: bool, threshold_sq_dm: i64) -> (r: Classification)
    ensures
        r == spec_classify(area_sq_dm as int, excluded, threshold_sq_dm as int),
{
    let below = if area_sq_dm >= 0 {
        area_sq_dm < threshold_sq_dm
    } else if area_sq_dm == i64::MIN {
        // |i64::MIN| exceeds every i64 threshold.
        false
    } else {
        -area_sq_dm < threshold_sq_dm
    };
    if below {
        Classification::BelowAreaThreshold
    } else if excluded {
        Classification::ExcludedTags
    } else {
        Classification::Normal
    }
}

/// A polygon with fewer than three usable vertices, or with a vertex
/// reference that resolves to no known position.
#[derive(Clone, Copy, Debug, PartialEq, Eq, Structural)]
pub enum PolygonError {
    MalformedPolygon,
}

/// Resolve a polygon's vertex references against the known positions.
/// Succeeds exactly when the polygon has at least three vertices and
/// every reference resolves; the result lists the positions in vertex
/// order.
pub fn resolve_polygon(node_ids: &Vec<i64>, nodes: &HashMap<i64, GeoCoordinate>) -> (r: Result<
    Vec<GeoCoordinate>,
    PolygonError,
>)
    ensures
        match r {
            Ok(cs) => {
                &&& node_ids@.len() >= 3
                &&& cs@.len() == node_ids@.len()
                &&& forall|i: int|
                    0 <= i < node_ids@.len() ==> nodes@.contains_key(#[trigger] node_ids@[i])
                        && cs@[i] == nodes@[node_ids@[i]]
            },
            Err(_) => node_ids@.len() < 3 || exists|i: int|
                0 <= i < node_ids@.len() && !nodes@.contains_key(#[trigger] node_ids@[i]),
        },
{
    if node_ids.len() < 3 {
        return Err(PolygonError::MalformedPolygon);
    }
    let mut cs: Vec<GeoCoordinate> = Vec::new();
    let n = node_ids.len();
    let mut i: usize = 0;
    while i < n
        invariant
            0 <= i <= n,
            n == node_ids@.len(),
            cs@.len() == i,
            forall|t: int|
                0 <= t < i ==> nodes@.contains_key(#[trigger] node_ids@[t]) && cs@[t]
                    == nodes@[node_ids@[t]],
        decreases n - i,
    {
        let id = node_ids[i];
        match nodes.get(&id) {
            Some(c) => {
                cs.push(*c);
            },
            None => {
                return Err(PolygonError::MalformedPolygon);
            },
        }
        i += 1;
    }
    Ok(cs)
}

} // verus!
