[package]
name = "stwo_cuda"
version = "0.1.0"
edition = "2021"
publish = false

[dependencies]
blake2 = "=0.10.6"
hashbrown = "=0.17.1"
itertools = "=0.15.0"
serde = { version = "=1.0.229", features = ["derive"] }
