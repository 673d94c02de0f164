[package]
name = "forgefs"
version = "0.1.0"
edition = "2021"
publish = false

[dependencies]
blake3 = "1"
libc = "0.2"
lru = "*"
parking_lot = "0.12"
rusqlite = { version = "*", features = ["bundled"] }
serde = { version = "1", features = ["derive"] }
serde_json = "1"
thiserror = "*"
ulid = "1"
