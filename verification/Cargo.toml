[package]
name = "ckb_smt_tool"
version = "0.1.0"
edition = "2021"
publish = false

[dependencies]
sparse-merkle-tree = { version = "*", features = ["blake2b"] }
ckb-hash = "*"
ckb-std = "*"
