[package]
name = "restreamer"
version = "0.1.0"
edition = "2021"
publish = false

[dependencies]
uuid = { version = "*", features = ["v4"] }
xxhash-rust = { version = "*", features = ["xxh3"] }
rust-argon2 = "*"
serde = { version = "*", features = ["derive"] }
serde_json = "*"
