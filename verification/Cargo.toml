[package]
name = "file_agent"
version = "0.1.0"
edition = "2021"
publish = false

[dependencies]
base64 = "=0.23.1"
sha2 = "=0.11.0"
serde = { version = "=1.0.229", features = ["derive"] }
tokio = { version = "=1.53.2", features = ["rt-multi-thread"] }
warp = { version = "=0.4.3", features = ["server"] }
walkdir = "=2.5.0"
