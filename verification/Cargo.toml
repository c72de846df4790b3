[package]
name = "miniutils"
version = "0.1.0"
edition = "2021"
publish = false

[dependencies]
ipnet = "2"
lazy_static = "1"
parking_lot = "*"
serde = { version = "1", features = ["derive"] }
sysinfo = "*"
tracing = "*"
