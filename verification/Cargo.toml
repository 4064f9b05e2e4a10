[package]
name = "zkp"
version = "0.1.0"
edition = "2021"
publish = false

[dependencies]
num-bigint = { version = "=0.4.8", features = ["rand", "serde"] }
rand = "=0.8.8"
sha2 = "=0.10.9"
serde = { version = "=1.0.229", features = ["derive"] }
serde_json = "=1.0.154"
thiserror = "=1.0.69"
axum = "=0.8.9"
tokio = { version = "=1.54.1", features = ["full"] }
tower-http = { version = "=0.6.11", features = ["cors"] }
tracing = "=0.1.44"
tracing-subscriber = { version = "=0.3.23", features = ["env-filter"] }
sled = "=0.34.7"
bincode = "=1.3.3"
clap = { version = "=4.6.7", features = ["derive"] }
reqwest = { version = "=0.12.28", default-features = false, features = ["json"] }
wasm-bindgen = "=0.2.130"
console_error_panic_hook = "=0.1.7"
