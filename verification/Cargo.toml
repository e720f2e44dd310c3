[package]
name = "pbft_node"
version = "0.1.0"
edition = "2021"
publish = false

[dependencies]
hex = "=0.4.3"
itertools = "=0.10.5"
log = "=0.4.35"
protobuf = "=2.28.0"
sawtooth-sdk = "=0.5.2"
serde_json = "=1.0.154"
sha2 = "=0.10.9"

[dev-dependencies]
secp256k1 = "=0.21.3"
