[package]
name = "mx_yaml"
version = "0.1.0"
edition = "2021"
publish = false

[dependencies]
serde_json = { version = "1", features = ["preserve_order"] }
wasm-bindgen = "0.2"
