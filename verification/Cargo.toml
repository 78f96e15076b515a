[package]
name = "wasm_2048"
version = "0.1.0"
edition = "2021"

[dependencies]
rand = "0.8"
wasm-bindgen = "0.2"
