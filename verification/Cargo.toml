[package]
name = "nog"
version = "1.4.0"
edition = "2021"
publish = false

[dependencies]
clap = { version = "4", features = ["derive"] }
serde = { version = "1", features = ["derive"] }
toml = "0.8"
flate2 = "1"
tar = "0.4"
zstd = "0.13"
