[package]
name = "roker"
version = "0.1.0"
edition = "2021"
publish = false

[dependencies]
bincode = "1.3"
uuid = { version = "1", features = ["v4", "serde"] }
shared_memory = "0.12"
serde = { version = "1", features = ["derive"] }
thiserror = "1"
libc = "0.2"
parking_lot = "0.12"
tracing = "0.1"
