[package]
name = "mavacs_plus"
version = "0.1.0"
edition = "2021"
publish = false

[dependencies]
sha2 = "0.10"
sha3 = "0.10"
serde = { version = "1", features = ["derive"] }
bincode = "1"
