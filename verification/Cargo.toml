[package]
name = "prefix_scan"
version = "0.1.0"
edition = "2021"
publish = false

[dependencies]
bcs = "0.1"
rand = "0.8"
scylla = "0.12"
tokio = { version = "1", features = ["macros", "rt-multi-thread"] }
