[package]
name = "algx"
version = "0.1.0"
edition = "2021"
publish = false

[dependencies]
wasm-bindgen = "=0.2.92"
js-sys = "=0.3.69"
wasm-bindgen-futures = "=0.4.42"
