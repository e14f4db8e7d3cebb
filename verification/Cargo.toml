[package]
name = "aggregator"
version = "0.1.0"
edition = "2021"
publish = false

[dependencies]
ipnet = "2"
nohash-hasher = "0.2"
rand = "0.8"
serde = { version = "1", features = ["derive"] }
serde_json = "1"
anyhow = "1"
clap = { version = "4", features = ["derive", "env"] }
