[package]
name = "orderbook"
version = "0.4.0"
edition = "2021"
publish = false

[dependencies]
anyhow = "1"
bincode = "1"
bytemuck = { version = "1", features = ["derive"] }
clap = { version = "4", features = ["derive"] }
crossbeam-channel = "0.5"
crossbeam-queue = "0.3"
rand = "0.8"
serde = { version = "1", features = ["derive"] }
serde_json = "1"
tokio = { version = "1", features = ["full"] }
