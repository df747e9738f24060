[package]
name = "toml_parser"
version = "0.1.0"
edition = "2021"
publish = false

[dependencies]
toml = { version = "0.8", features = ["preserve_order"] }
serde_json = { version = "1", features = ["preserve_order"] }
napi = "2"
napi-derive = "2"
wasm-bindgen = "0.2"
