[package]
name = "sparse_merkle"
version = "0.1.0"
edition = "2021"
publish = false

[dependencies]
tiny-keccak = { version = "2", features = ["keccak"] }
rocksdb = "*"
