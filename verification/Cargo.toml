[package]
name = "axolotl"
version = "0.1.0"
edition = "2021"
publish = false

[dependencies]
blake3 = "1"
redb = "2"
triomphe = "0.1"
