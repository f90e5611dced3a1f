[package]
name = "rotate_pairs"
version = "0.1.0"
edition = "2021"
publish = false

[dependencies]
rand = "=0.8.8"
svg = "=0.17.0"
wasm-bindgen = "=0.2.129"
