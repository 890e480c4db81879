[package]
name = "zei"
version = "0.1.0"
edition = "2021"
publish = false

[dependencies]
ark-bls12-381 = "=0.4.0"
ark-ec = "=0.4.2"
ark-ed25519 = "=0.4.0"
ark-ff = "=0.4.2"
ark-serialize = "=0.4.2"
ark-std = "=0.4.0"
bincode = "=1.3.3"
curve25519-dalek = "=3.2.1"
digest = "=0.9.0"
merlin = "=3.0.0"
num-bigint = "=0.4.8"
rand_chacha = "=0.3.1"
rand_core = "=0.6.4"
serde = { version = "1", features = ["derive"] }
sha3 = "0.9"
