[package]
name = "meowsic"
version = "0.1.0"
edition = "2021"
publish = false

[dependencies]
blake3 = "=1.8.7"
anyhow = "=1.0.104"
serde = { version = "=1.0.229", features = ["derive"] }
serde_json = "=1.0.151"
walkdir = "=2.5.0"
zip = "=8.6.0"
symphonia = "=0.5.5"
