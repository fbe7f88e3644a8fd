[package]
name = "office-crypto-core"
version = "0.1.0"
edition = "2021"
publish = false

[dependencies]
aes = "0.8"
cbc = "0.1"
quick-xml = "0.31"
sha2 = "0.10"
