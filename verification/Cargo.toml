[package]
name = "weight_watcher"
version = "0.1.0"
edition = "2021"

[dependencies]
time = { version = "*", features = ["local-offset"] }
