[package]
name = "dat"
version = "0.1.0"
edition = "2021"
publish = false

[dependencies]
blake2 = "0.10"
ed25519-dalek = { version = "2", features = ["rand_core"] }
indexmap = "2"
lru-cache = "0.1"
quick-protobuf = "0.8"
rand = "0.8"
