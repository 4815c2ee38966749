[package]
name = "autoeq"
version = "0.1.0"
edition = "2021"
publish = false

[dependencies]
regex = "1"
serde = { version = "1", features = ["derive"] }
serde_json = "1"
thiserror = "*"
num-complex = "0.4"
realfft = "3"
axum = "*"
tokio = { version = "1", features = ["rt-multi-thread", "macros", "net"] }
tower-http = { version = "*", features = ["cors"] }
wasm-bindgen = "0.2"
console_error_panic_hook = "0.1"
