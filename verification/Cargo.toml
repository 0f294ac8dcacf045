[package]
name = "local_rag_app"
version = "0.1.0"
edition = "2021"
publish = false

[dependencies]
uuid = { version = "1", features = ["v4"] }
chrono = "0.4"
dirs = "*"
sysinfo = "*"
serde = { version = "1", features = ["derive"] }
serde_json = "1"
anyhow = "1"
log = "0.4"
futures-util = "0.3"
tokio = { version = "1", features = ["rt", "sync", "time", "macros"] }
reqwest = { version = "*", default-features = false, features = ["json", "stream"] }
arrow-array = "*"
arrow-schema = "*"
