[package]
name = "zk"
version = "0.1.0"
edition = "2021"
publish = false

[dependencies]
bls12_381 = "0.8"
jubjub = "0.10"
bellman = "0.14"
once_cell = "1"

[dev-dependencies]
group = "0.13"
