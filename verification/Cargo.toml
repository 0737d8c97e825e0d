[package]
name = "poly_commit"
version = "0.1.0"
edition = "2021"
publish = false

[dependencies]
ark-bls12-381 = { version = "0.5", default-features = false, features = ["scalar_field"] }
ark-crypto-primitives = { version = "0.5", default-features = false, features = ["sponge", "merkle_tree"] }
ark-ff = { version = "0.5", default-features = false }
ark-poly = { version = "0.5", default-features = false }
ark-serialize = { version = "0.5", default-features = false }
ark-std = { version = "0.5", default-features = false }
blake2 = { version = "0.10", default-features = false }
digest = "0.10"

[dev-dependencies]
rand_chacha = { version = "0.3", default-features = false }
