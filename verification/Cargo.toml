[package]
name = "matchcore"
version = "0.1.0"
edition = "2021"
publish = false

[dependencies]
priority-queue = "*"
tokio = { version = "*", features = ["rt-multi-thread", "net", "sync", "macros", "io-util", "time"] }
