[package]
name = "tile_mosaic"
version = "0.1.0"
edition = "2021"
publish = false

[dependencies]
slippy-map-tiles = "*"
image = "0.24"
imageproc = "0.23"
geo = "*"
osmpbfreader = "*"
rayon = "*"
reqwest = { version = "*", default-features = false, features = ["blocking"] }
