[package]
name = "httpfs"
version = "0.1.0"
edition = "2021"
publish = false

[dependencies]
urlencoding = "2"
tokio = { version = "1", features = ["rt-multi-thread", "net", "fs", "io-util", "macros"] }
clap = { version = "4", features = ["derive"] }
owo-colors = { version = "4", features = ["supports-colors"] }
mime_guess = "2"
