[package]
name = "tile_pathfinder"
version = "0.1.0"
edition = "2021"
publish = false

[dependencies]
priority-queue = "=2.7.0"
serde = { version = "=1.0.229", features = ["derive"] }
wasm-bindgen = "=0.2.129"
