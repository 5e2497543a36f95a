[package]
name = "hashlife"
version = "0.1.0"
edition = "2021"
publish = false

[dependencies]
indexmap = "2"
rustc-hash = "2"
wasm-bindgen = "0.2"
js-sys = "0.3"
