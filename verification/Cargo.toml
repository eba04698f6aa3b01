[package]
name = "kademlia_dht"
version = "0.1.0"
edition = "2021"
publish = false

[dependencies]
bincode = "1"
log = "0.4"
rand = "0.8"
serde = { version = "1", features = ["derive"] }
serde_derive = "1"
sha3 = "0.10"
simplelog = "0.12"
time = "0.1"

[dev-dependencies]
num-bigint = "0.4"
