[package]
name = "dynark"
version = "0.1.0"
edition = "2021"
publish = false

[dependencies]
ark-ff = "0.5"
ark-ec = "0.5"
ark-poly = "0.5"
ark-serialize = "0.5"
ark-std = "0.5"
ark-bls12-381 = "0.5"
ark-relations = "0.5"
ark-crypto-primitives = { version = "0.5", default-features = false, features = ["snark", "sponge"] }
rand = "0.9"
num-traits = "0.2"
