[package]
name = "mysticeti-core"
version = "0.1.0"
edition = "2021"
publish = false

[dependencies]
bincode = "=1.3.3"
futures = "=0.3.34"
itertools = "=0.11.0"
sapling-minibytes = "=0.1.0"
parking_lot = "=0.12.5"
rand = "=0.8.8"
serde = { version = "=1.0.229", features = ["derive"] }
tokio = { version = "=1.54.1", features = ["sync", "rt", "time", "macros"] }
