[package]
name = "cattail"
version = "0.1.0"
edition = "2021"
publish = false

[dependencies]
anyhow = "1"
clap = { version = "4", features = ["derive"] }
glob = "0.3"
notify = "8"
tokio = { version = "1", features = ["rt-multi-thread", "macros", "fs", "io-util", "time", "signal", "sync"] }
