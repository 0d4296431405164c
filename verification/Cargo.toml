[package]
name = "simple_state"
version = "0.1.0"
edition = "2021"
publish = false

[dependencies]
rust-crypto = "*"
hex = "*"
serde = { version = "*", features = ["derive"] }
serde_json = "*"
reqwest = { version = "*", default-features = false, features = ["blocking", "json"] }
clap = "2"
log = "*"
simple_logger = "*"
