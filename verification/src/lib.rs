//! Tile raster cache and mosaic assembly for a building-footprint renderer.
//!
//! The library covers tile addressing and geo/pixel projection, a
//! deduplicating on-demand tile-image cache, a polygon rasterizer that
//! handles polygons spanning tile boundaries, and a mosaic stitcher that
//! combines fixed-size grids of tiles while guaranteeing each output block
//! is claimed exactly once despite parallel execution.
//!
//! Geographic coordinates are carried as integers in units of 1e-7 degree
//! (the unit of the upstream footprint data); all pixel work is done on
//! plain RGB byte buffers. Network and file I/O stay outside the library:
//! the cache and the stitcher hand out fetch and persist instructions as
//! values, and take the fetched bytes back as values.

pub mod geom;
pub mod names;
pub mod tiles;
pub mod canvas;
pub mod classify;
pub mod cache;
pub mod raster;
pub mod stitch;
pub mod inventory;
