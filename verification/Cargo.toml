[package]
name = "ctxvault"
version = "0.1.0"
edition = "2021"
publish = false

[dependencies]
petgraph = "0.6"
ignore = "0.4"
serde = { version = "1", features = ["derive"] }
serde_json = "1"
sysinfo = "*"
