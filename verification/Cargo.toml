[package]
name = "swh_resolver"
version = "0.1.0"
edition = "2021"
publish = false

[dependencies]
ahash = "0.8"
anyhow = "1"
arrow = { version = "57", default-features = false }
clap = { version = "4", features = ["derive"] }
dashmap = "6"
epserde = { version = "0.8", default-features = false }
hashbrown = "0.15"
hex = "0.4"
parquet = { version = "57", default-features = false, features = ["arrow", "zstd"] }
rayon = "1"
sha1 = "0.10"
sux = { version = "0.7", default-features = false }
