[package]
name = "contour_sweep"
version = "0.1.0"
edition = "2021"
publish = false

[dependencies]
contour = "*"
geojson = "*"
palette = "*"
plotters = { version = "0.3", default-features = false, features = ["bitmap_backend", "bitmap_encoder"] }
ucsf_nmr = "*"
