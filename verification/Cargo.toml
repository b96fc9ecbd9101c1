[package]
name = "fhe_bulletproofs"
version = "0.1.0"
edition = "2021"
publish = false

[dependencies]
curve25519-dalek = "=3.2.1"
num-bigint = "=0.4.8"

[dev-dependencies]
bulletproofs = { version = "=3.0.1", features = ["yoloproofs"] }
curve25519-dalek-ng = "=3.0.3"
merlin = "=2.0.1"
