[package]
name = "unitrie_rs"
version = "0.1.0"
edition = "2021"
publish = false

[dependencies]
tiny-keccak = { version = "*", features = ["keccak"] }
