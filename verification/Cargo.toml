[package]
name = "xross"
version = "0.1.0"
edition = "2021"
publish = false

[dependencies]
heck = "0.5"
serde = { version = "1", features = ["derive"] }
serde_json = "1"
rand = "0.9"
tokio = { version = "1", features = ["rt-multi-thread", "sync", "time"] }
