[package]
name = "ceredb"
version = "0.1.0"
edition = "2021"

[dependencies]
async-trait = "0.1"
axum = "0.7"
bincode = "1.3"
clap = { version = "4", features = ["derive"] }
crc32fast = "1"
crossbeam-channel = "0.5"
crossbeam-skiplist = "0.1"
env_logger = "0.11"
fastbloom = "*"
log = "0.4"
openraft = { version = "0.9", features = ["serde", "storage-v2"] }
rayon = "1"
reqwest = { version = "0.12", default-features = false, features = ["json"] }
rust_raft = "*"
serde = { version = "1", features = ["derive"] }
serde_json = "1"
tokio = { version = "1", features = ["full"] }
tokio-util = "0.7"

[dev-dependencies]
tempfile = "3"
