[package]
name = "pocket_lsm"
version = "0.1.0"
edition = "2021"
publish = false

[dependencies]
fastrand = "2"
twox-hash = "2"
