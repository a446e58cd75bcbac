[package]
name = "lumina_core"
version = "0.1.0"
edition = "2021"
publish = false

[dependencies]
blake3 = "1"
image = { version = "0.25", default-features = false, features = ["png", "jpeg", "webp"] }
serde = { version = "1", features = ["derive"] }
serde_json = "1"
thiserror = "2"
log = "0.4"
