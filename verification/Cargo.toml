[package]
name = "pathlockd"
version = "0.6.2"
edition = "2021"
publish = false

[dependencies]
anyhow = "=1.0.104"
bincode = { version = "=2.0.1", features = ["serde"] }
clap = { version = "=4.6.7", features = ["derive", "env"] }
futures = "=0.3.34"
prost = "=0.14.4"
rocksdb = { version = "=0.25.0", default-features = false }
serde = { version = "=1.0.229", features = ["derive"] }
tokio = { version = "=1.54.1", features = ["full"] }
toml = "=1.1.8"
tonic = "=0.14.9"
tonic-prost = "=0.14.9"
tracing = "=0.1.44"
tracing-subscriber = { version = "0.3", features = ["env-filter"] }
xxhash-rust = { version = "=0.8.19", features = ["xxh3"] }
