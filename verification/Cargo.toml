[package]
name = "doru"
version = "0.1.0"
edition = "2021"
publish = false

[dependencies]
clap = { version = "*", features = ["derive"] }
dirs = "*"
thiserror = "*"

[dev-dependencies]
serde_json = "*"
