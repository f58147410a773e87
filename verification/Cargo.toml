[package]
name = "galaxies"
version = "0.1.0"
edition = "2021"
publish = false

[dependencies]
itertools = "0.14"
ordered-float = "4"
rand = "0.8"
serde = { version = "1", features = ["derive"] }
serde-wasm-bindgen = "0.6"
ts-rs = "10"
wasm-bindgen = "0.2"
