[package]
name = "luna_vdb"
version = "0.1.0"
edition = "2021"
publish = false

[dependencies]
flate2 = "1"
kiddo = { version = "4", default-features = false }
serde = { version = "1", features = ["derive"] }
tsify = "0.4"
wasm-bindgen = "0.2"
