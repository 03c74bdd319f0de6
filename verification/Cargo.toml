[package]
name = "alters-save-core"
version = "0.1.0"
edition = "2021"
publish = false

[dependencies]
memchr = "2"
flate2 = "1"
az = "1"
thiserror = "2"
anyhow = "1"
serde = { version = "1", features = ["derive"] }
serde_json = "1"
wasm-bindgen = "0.2"
console_error_panic_hook = "0.1"
