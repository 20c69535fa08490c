[package]
name = "misato"
version = "0.1.0"
edition = "2021"
publish = false

[dependencies]
anyhow = "1"
axum = "0.7"
clap = { version = "4", features = ["derive"] }
csv = "1"
image = { version = "0.25", default-features = false, features = ["jpeg", "png", "tiff"] }
indicatif = "0.17"
rand = "0.8"
rayon = "1"
serde = { version = "1", features = ["derive"] }
serde_json = "1"
tokio = { version = "1", features = ["rt-multi-thread", "net", "fs", "signal", "sync", "macros"] }
walkdir = "2"
