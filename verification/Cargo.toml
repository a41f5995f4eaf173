[package]
name = "coedit"
version = "0.1.0"
edition = "2021"
publish = false

[dependencies]
append-only-vec = "=0.1.8"
base16ct = { version = "=0.2.0", features = ["alloc"] }
crossterm = { version = "=0.28.1", features = ["event-stream"] }
futures = "=0.3.34"
rand = "=0.9.5"
ratatui = "=0.29.0"
serde = { version = "=1.0.229", features = ["derive"] }
serde_json = "=1.0.151"
sha3 = "=0.10.9"
tokio = { version = "=1.53.2", features = ["full"] }
