[package]
name = "rpl"
version = "0.1.0"
edition = "2021"
publish = false

[dependencies]
unicode-segmentation = "1"
wasm-bindgen = "0.2"
