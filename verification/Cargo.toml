[package]
name = "gemgraph"
version = "0.1.0"
edition = "2021"
publish = false

[dependencies]
crc32c = "0.6"
bincode = "1.3"
serde = { version = "1", features = ["derive"] }
thiserror = "1"
rusqlite = { version = "*", features = ["bundled"] }
tempfile = "3"
