[package]
name = "coderec"
version = "0.1.0"
edition = "2021"
publish = false

[dependencies]
anyhow = "1"
clap = "4"
itertools = "*"
log = "0.4"
plotters = { version = "0.3", default-features = false, features = ["svg_backend", "bitmap_backend", "bitmap_encoder", "full_palette", "all_series", "all_elements"] }
rayon = "1"
serde = { version = "1", features = ["derive"] }
serde_json = "1"
simple_logger = "*"
