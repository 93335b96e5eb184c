[package]
name = "rbr_codec"
version = "0.1.0"
edition = "2021"
publish = false

[dependencies]
anyhow = "*"
clap = { version = "*", features = ["derive"] }
indicatif = "*"
serde = { version = "*", features = ["derive"] }
serde_json = "*"
walkdir = "*"
