[package]
name = "ope"
version = "0.1.0"
edition = "2021"
publish = false

[dependencies]
aes = "0.8"
ctr = "0.9"
hmac = "0.12"
sha2 = "0.10"
