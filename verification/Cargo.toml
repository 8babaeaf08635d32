[package]
name = "rust_vector_engine"
version = "0.1.0"
edition = "2021"
publish = false

[dependencies]
ahash = "0.8"
lru = "*"
instant-distance = "*"
serde = { version = "1", features = ["derive"] }
serde-wasm-bindgen = "*"
wasm-bindgen = "*"

[dev-dependencies]
prost = "*"
