[package]
name = "dedup_archive"
version = "0.1.0"
edition = "2021"
publish = false

[dependencies]
cdchunking = "*"
rust-crypto = "0.2"
rusqlite = { version = "*", features = ["bundled"] }
zstd = "*"
structopt = "0.3"
