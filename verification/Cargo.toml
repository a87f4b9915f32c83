[package]
name = "lumina_core"
version = "0.1.0"
edition = "2021"
publish = false

[dependencies]
sha2 = "*"
nmt-rs = "*"

[dev-dependencies]
cid = "*"
multihash = "*"
