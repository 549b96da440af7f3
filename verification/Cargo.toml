[package]
name = "smr"
version = "0.1.0"
edition = "2021"
publish = false

[dependencies]
anyhow = "1"
serde = { version = "1", features = ["derive"] }
serde_json = "1"
bincode = "1"
log = "0.4"
tracing = "0.1"
rand = "0.9"
tokio = { version = "1", features = ["rt", "rt-multi-thread", "macros", "net", "sync", "time", "io-util"] }
sled = "0.34"
rocksdb = { version = "0.22", default-features = false }

[dev-dependencies]
tracing-subscriber = { version = "0.3", features = ["json", "env-filter"] }
tempfile = "3"
