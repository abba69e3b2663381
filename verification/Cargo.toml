[package]
name = "kademlia"
version = "0.1.0"
edition = "2021"
publish = false

[dependencies]
bincode = "1.3"
dashmap = "6"
env_logger = "0.11"
futures = "0.3"
heapless = "0.8"
hex = "0.4"
log = "0.4"
rand = "0.8"
sha2 = "0.10"
tokio = { version = "1", features = ["full"] }
