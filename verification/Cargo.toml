[package]
name = "ocr_corrector"
version = "2.6.0"
edition = "2021"
publish = false

[dependencies]
ahash = "=0.8.12"
clap = { version = "=4.6.7", features = ["derive"] }
colored = "=2.2.0"
dashmap = "=6.2.1"
fastbloom = "0.14"
indicatif = "=0.17.11"
rand = "=0.8.8"
rayon = "=1.12.0"
serde = { version = "=1.0.229", features = ["derive"] }
serde_json = "=1.0.154"
zstd = "0.13"
