[package]
name = "zpp"
version = "0.1.0"
edition = "2021"
publish = false

[dependencies]
num-bigint = "0.4"
num-traits = "0.2"
cpu-time = "1"
serde = { version = "1", features = ["derive"] }
serde_json = "1"
