[package]
name = "ziff"
version = "0.1.0"
edition = "2021"
publish = false

[dependencies]
gix = { version = "0.90", features = ["blocking-network-client"] }
serde = { version = "1", features = ["derive"] }
serde_json = "1"

[dev-dependencies]
tempfile = "3"
