[package]
name = "state_channel_node"
version = "0.1.0"
edition = "2021"
publish = false

[dependencies]
ed25519-dalek = "2"
rand = "0.8"
sha2 = "0.10"
sha3 = "0.10"
sled = "0.34"
