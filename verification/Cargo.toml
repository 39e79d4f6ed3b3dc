[package]
name = "plonk_prover"
version = "0.1.0"
edition = "2021"
publish = false

[dependencies]
pairing_ce = "*"
futures = "0.3"
futures-locks = "*"
