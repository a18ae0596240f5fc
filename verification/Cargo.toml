[package]
name = "avalanche_types"
version = "0.1.0"
edition = "2021"
publish = false

[dependencies]
bitcoin = "=0.28.2"
ethereum-types = "=0.13.1"
hex = "=0.4.3"
log = "0.4"
ripemd = "=0.1.3"
secp256k1 = { version = "=0.22.2", features = ["rand-std"] }
serde = { version = "1", features = ["derive"] }
serde_json = "1"
serde_yaml = "0.8"
sha3 = "=0.10.9"
