[package]
name = "orbit-transfer"
version = "0.1.0"
edition = "2021"
publish = false

[dependencies]
anyhow = "1"
argon2 = "0.5"
bytes = "1"
chacha20poly1305 = "0.10"
clap = { version = "4", features = ["derive"] }
futures-util = "0.3"
js-sys = "0.3"
quinn = "0.11"
rand = "0.8"
rand_chacha = "0.3"
rcgen = "0.14"
thiserror = "1"
tokio = { version = "1", features = ["full"] }
tokio-tungstenite = "0.24"
tracing = "0.1"
tracing-subscriber = "0.3"
uuid = { version = "1", features = ["v4"] }
wasm-bindgen = "0.2"
windows-sys = { version = "0.59", features = ["Win32_Media"] }
xxhash-rust = { version = "0.8", features = ["xxh3"] }
