[package]
name = "caching_strategies"
version = "0.1.0"
edition = "2021"
publish = false

[dependencies]
anyhow = "1"
clap = { version = "4", features = ["derive"] }
serde = { version = "1", features = ["derive"] }
serde_json = "1"
serde_bytes = "0.11"
rmp-serde = "1"
sha2 = "0.10"
zstd = "0.13"
rayon = "1"
arrow = { version = "*", default-features = false }
parquet = { version = "*", default-features = false, features = ["arrow", "snap"] }

[dev-dependencies]
tempfile = "3"
