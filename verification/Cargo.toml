[package]
name = "harmonic"
version = "0.1.0"
edition = "2021"
publish = false

[dependencies]
md5 = "0.7"
chrono = "0.4"
dirs = "*"
uuid = { version = "1", features = ["v4"] }
serde = { version = "1", features = ["derive"] }
serde_json = "1"
toml = "*"
walkdir = "2"
tokio = { version = "1", features = ["rt", "rt-multi-thread", "macros", "fs", "io-util", "sync", "time"] }
log = "0.4"
notify = "*"
