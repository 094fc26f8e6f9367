[package]
name = "magentadb"
version = "0.1.0"
edition = "2021"
publish = false

[dependencies]
anyhow = "1"
chacha20poly1305 = "0.10"
chrono = "0.4"
clap = { version = "4", features = ["derive"] }
dashmap = "6"
hex = "0.4"
hmac = "0.12"
rand = "0.8"
serde = { version = "1", features = ["derive"] }
serde_json = "1"
sha2 = "0.10"
