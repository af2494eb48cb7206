[package]
name = "port_watch"
version = "0.1.0"
edition = "2021"
publish = false

[dependencies]
clap = { version = "*", features = ["derive"] }
comfy-table = "*"
serde = { version = "*", features = ["derive"] }
serde_json = "*"
