[package]
name = "rasura_layout"
version = "0.1.0"
edition = "2021"
publish = false

[dependencies]
js-sys = "=0.3.107"
wasm-bindgen = "=0.2.130"
