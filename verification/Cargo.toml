[package]
name = "guitar_tab_generator"
version = "0.1.0"
edition = "2021"
publish = false

[dependencies]
pathfinding = "*"
serde = { version = "*", features = ["derive"] }
serde-wasm-bindgen = "*"
wasm-bindgen = "*"
