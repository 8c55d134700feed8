[package]
name = "star_core"
version = "0.1.0"
edition = "2021"
publish = false

[dependencies]
curve25519-dalek = { version = "4", features = ["digest", "rand_core"] }
ppoprf = "*"
rand = "0.8"
sha2 = "0.10"
