[package]
name = "minhash_grouping"
version = "0.1.0"
edition = "2021"
publish = false

[dependencies]
rand = "0.8"
xxhash-rust = { version = "0.8", features = ["xxh3"] }
chrono = "0.4"
clap = { version = "4", features = ["derive"] }
csv = "1"
serde = { version = "1", features = ["derive"] }
