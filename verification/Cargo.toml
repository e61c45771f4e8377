[package]
name = "wallet_core"
version = "0.1.0"
edition = "2021"
publish = false

[dependencies]
secp256k1 = { version = "=0.31.1", features = ["rand", "hashes"] }
rand = "=0.9.5"
base64 = "=0.23.1"
bit-vec = "=0.10.1"
serde = { version = "*", features = ["derive"] }
serde_json = "*"
secstr = "*"
zxcvbn = "*"
parity-scale-codec = { version = "*", features = ["derive"] }
