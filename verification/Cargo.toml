[package]
name = "btree_index"
version = "0.1.0"
edition = "2021"
publish = false

[dependencies]
bincode = { version = "2.0", features = ["serde"] }
bytes = "1"
crc32fast = "1"
sha2 = "0.10"
serde = { version = "1", features = ["derive"] }
serde_json = "1"
rand = "0.8"
log = "0.4"
futures = "0.3"
async-channel = "2"
opendal = { version = "0.54", default-features = false, features = ["services-memory"] }
