[package]
name = "blurhash_wasm"
version = "0.1.0"
edition = "2021"
publish = false

[dependencies]
js-sys = "0.3"
thiserror = "1"
wasm-bindgen = "0.2"
