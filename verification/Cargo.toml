[package]
name = "balena_temen"
version = "0.1.0"
edition = "2021"
publish = false

[dependencies]
serde_json = "1"
wasm-bindgen = { version = "0.2", features = ["serde-serialize"] }
console_error_panic_hook = "0.1"
