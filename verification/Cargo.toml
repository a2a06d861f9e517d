[package]
name = "appserver"
version = "0.1.0"
edition = "2021"
publish = false

[dependencies]
chrono = "0.4"
r2d2 = "0.8"
r2d2_sqlite = "*"
rand = "0.8"
rusqlite = "*"
serde = { version = "1", features = ["derive"] }
serde_json = "1"
tokio = { version = "1", features = ["fs", "macros", "rt", "rt-multi-thread", "sync", "time"] }
uuid = { version = "1", features = ["v4"] }
