[package]
name = "cdp_interest"
version = "0.1.0"
edition = "2021"
publish = false

[dependencies]
wasm-bindgen = "=0.2.129"

[dev-dependencies]
sp-arithmetic = "=29.0.0"
