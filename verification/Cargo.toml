[package]
name = "nice_hand_core"
version = "0.1.0"
edition = "2021"
publish = false

[dependencies]
rand = "0.8"
serde = { version = "1", features = ["derive"] }
fxhash = "0.2"
lazy_static = "1"
wasm-bindgen = "0.2"
