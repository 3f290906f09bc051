[package]
name = "rustfk"
version = "0.1.0"
edition = "2021"
publish = false

[dependencies]
chrono = "*"
serde = { version = "*", features = ["derive"] }
serde_json = "*"
glob = "*"
rusqlite = { version = "*", features = ["bundled"] }
tokio = { version = "*", features = ["rt-multi-thread", "net", "time", "sync", "macros", "fs", "io-util"] }
socket2 = "*"
anyhow = "*"
thiserror = "*"
async-trait = "*"
tracing = "*"
reqwest = { version = "*", default-features = false }
