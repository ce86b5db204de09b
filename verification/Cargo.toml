[package]
name = "friendly-pow-rs"
version = "0.1.0"
edition = "2021"
publish = false

[dependencies]
blake2 = "0.10"
wasm-bindgen = "0.2"
