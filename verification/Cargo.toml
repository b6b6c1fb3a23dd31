[package]
name = "juno_keys"
version = "0.1.0"
edition = "2021"
publish = false

[dependencies]
base64 = "*"
blake2b_simd = "*"
clap = { version = "*", features = ["derive"] }
orchard = { version = "*", default-features = false }
rand = "0.8"
serde = { version = "*", features = ["derive"] }
serde_json = "*"
zeroize = "*"
zip32 = "*"
