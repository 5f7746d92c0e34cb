[package]
name = "bip39_core"
version = "0.1.0"
edition = "2021"
publish = false

[dependencies]
bip39 = { version = "*", features = ["all-languages"] }
sha2 = "*"
hmac = "*"
pbkdf2 = "*"
rand = "*"
unicode-normalization = "*"
