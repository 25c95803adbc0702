[package]
name = "membench"
version = "0.1.0"
edition = "2021"
publish = false

[dependencies]
anyhow = "1"
bincode = "1.3"
clap = { version = "4", features = ["derive"] }
ctrlc = "3"
hdrhistogram = { version = "7", default-features = false }
pcap = "2"
rand = "0.8"
serde = { version = "1", features = ["derive"] }
serde_json = "1"
siphasher = "1"
tokio = { version = "1", features = ["full"] }
tokio-util = "0.7"
tracing = "0.1"
tracing-subscriber = "0.3"
