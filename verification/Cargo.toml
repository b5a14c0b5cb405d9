[package]
name = "kademlia_dht"
version = "0.1.0"
edition = "2021"
publish = false

[dependencies]
rand = "0.9"

[dev-dependencies]
bincode = "1.3"
