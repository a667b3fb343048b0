[package]
name = "hatp_engine"
version = "0.1.0"
edition = "2021"
publish = false

[dependencies]
arc-swap = "=1.9.3"
arrow-array = "58"
arrow-schema = { version = "58", features = ["serde"] }
bytes = "=1.12.1"
crossbeam-skiplist = "=0.1.3"
datafusion-common = { version = "53", default-features = false }
futures = "0.3"
memmap2 = "0.9"
parking_lot = "0.12"
rayon = "1"
serde_json = "1"
smallvec = "=1.16.4"
thiserror = "2"
tokio = { version = "1", features = ["sync", "rt", "rt-multi-thread"] }
tokio-stream = { version = "0.1", features = ["sync"] }
tracing = "0.1"

[dev-dependencies]
tempfile = "3"
