[package]
name = "kokkupanek"
version = "0.1.0"
edition = "2021"
publish = false

[dependencies]
serde = { version = "1", features = ["derive"] }
serde_json = "1"
serde_millis = "*"
rand = "0.4"
log = "0.4"
failure = "0.1"
juniper = { version = "*", default-features = false }
