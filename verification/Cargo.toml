[package]
name = "stateless-validator-reth"
version = "0.1.0"
edition = "2021"
publish = false

[dependencies]
alloy-primitives = { version = "=1.7.3", features = ["map", "map-indexmap"] }
alloy-rlp = "=0.3.17"
alloy-rpc-types-debug = "=2.5.0"
alloy-trie = { version = "=0.9.9", features = ["ethereum"] }
thiserror = "=2.0.21"
