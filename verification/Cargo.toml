[package]
name = "decoys"
version = "0.1.0"
edition = "2021"
publish = false

[dependencies]
curve25519-dalek = "4"
ff = "0.13"
group = "0.13"
k256 = "0.13"
p256 = "0.13"
rand_core = "0.6"
rand_distr = "0.4"
sha2 = "0.10"
