[package]
name = "fsdb"
version = "0.1.0"
edition = "2021"
publish = false

[dependencies]
anyhow = "*"
tokio = { version = "*", features = ["rt", "net", "io-util", "time", "sync", "macros"] }
