[package]
name = "knn"
version = "0.1.0"
edition = "2021"
publish = false

[dependencies]
kiddo = "4"
fixed = "1"
csv = "1"
plotters = { version = "0.3", default-features = false, features = ["bitmap_backend", "bitmap_encoder", "line_series"] }
