[package]
name = "rookie_redis"
version = "0.1.0"
edition = "2021"
publish = false

[dependencies]
tokio = { version = "1", features = ["rt-multi-thread", "net", "sync", "time", "io-util", "macros", "signal"] }
bytes = "1"
clap = { version = "4", features = ["derive"] }
