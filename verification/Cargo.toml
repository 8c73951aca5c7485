[package]
name = "tpch_engine"
version = "0.1.0"
edition = "2021"
publish = false

[dependencies]
rand = "0.8"
serde = { version = "1", features = ["derive"] }
serde_json = "1"
clap = { version = "4", features = ["derive"] }
anyhow = "1"
libc = "0.2"
rusqlite = { version = "0.31", features = ["bundled"] }
