[package]
name = "steam_downgrader"
version = "0.2.1"
edition = "2021"
publish = false

[dependencies]
chrono = { version = "0.4", default-features = false, features = ["alloc", "std"] }
serde = { version = "1", features = ["derive"] }
serde_json = "1"
walkdir = "2"
thiserror = "2"
tokio = { version = "1", features = ["process", "io-util", "sync", "time", "rt", "macros"] }
reqwest = { version = "0.12", default-features = false, features = ["json"] }
