[package]
name = "starkom"
version = "0.1.0"
edition = "2021"
publish = false

[dependencies]
primitive-types = "=0.14.0"
sha3 = "=0.12.0"
starkom-bluesky = "=3.2.0"
starkom-ff = "=2.3.0"
starkom-goldilocks = "=3.4.2"
starkom-pcs = "=4.2.2"
starkom-poly = "=4.2.0"
starkom-poseidon = "=3.1.1"
starkom-poseidon2 = "=6.1.0"
