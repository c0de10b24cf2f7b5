[package]
name = "ici_core"
version = "0.1.0"
edition = "2021"
publish = false

[dependencies]
miniz_oxide = "0.8"
encoding_rs = "0.8"
byteorder = "1"
nalgebra = "0.33"
serde = { version = "1", features = ["derive"] }
serde_json = "1"
wasm-bindgen = "0.2"
thiserror = "2"
