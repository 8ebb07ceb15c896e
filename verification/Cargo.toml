[package]
name = "merkle_trie"
version = "0.1.0"
edition = "2021"
publish = false

[dependencies]
blake2-rfc = "*"
parity-scale-codec = "*"
