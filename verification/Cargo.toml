[package]
name = "region_converter"
version = "0.1.0"
edition = "2021"
publish = false

[dependencies]
anyhow = "1"
clap = { version = "4", features = ["derive"] }
flate2 = "1"
indicatif = "0.17"
rayon = "1"
walkdir = "2"
xxhash-rust = { version = "0.8", features = ["xxh32"] }
zstd = "0.13"
