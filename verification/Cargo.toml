[package]
name = "rconn"
version = "0.1.0"
edition = "2021"
publish = false

[dependencies]
aes = "0.8"
sha2 = "0.10"
rand = "0.9"
serde = { version = "1", features = ["derive"] }
serde_json = "1"
log = "0.4"
once_cell = "1"
