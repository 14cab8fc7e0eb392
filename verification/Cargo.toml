[package]
name = "scan_json"
version = "0.1.0"
edition = "2021"
publish = false

[dependencies]
jiter = "*"
embedded-io = "*"
serde_json = "1"
thiserror = "*"
anyhow = "1"
clap = { version = "4", features = ["derive"] }
