[package]
name = "csvplot"
version = "0.1.0"
edition = "2021"
publish = false

[dependencies]
reqwest = { version = "*", default-features = false, features = ["blocking"] }
plotters = { version = "*", default-features = false, features = ["bitmap_backend", "bitmap_encoder", "ab_glyph", "all_series", "all_elements", "full_palette"] }
color-eyre = "*"
