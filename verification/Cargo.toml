[package]
name = "rpick"
version = "0.1.0"
edition = "2021"
publish = false

[dependencies]
blake3 = { version = "1", features = ["pure"] }
hex = "0.4"
walkdir = "2"
serde = { version = "1", features = ["derive"] }
serde_json = "1"
clap = { version = "4", features = ["derive"] }
indicatif = "0.17"
image = { version = "0.25", default-features = false, features = ["jpeg", "png"] }
