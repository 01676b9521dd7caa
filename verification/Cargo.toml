[package]
name = "devondb_storage"
version = "0.1.0"
edition = "2021"
publish = false

[dependencies]
crc32c = "0.6"
getrandom = "0.3"
serde = { version = "1", features = ["derive"] }
serde_json = "1"
thiserror = "2"
zstd = "0.13"
