[package]
name = "lean_imt_bn254"
version = "0.1.0"
edition = "2021"
publish = false

[dependencies]
soroban-sdk = { version = "*", features = ["testutils"] }
soroban-poseidon = "*"
