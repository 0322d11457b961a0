[package]
name = "pals"
version = "0.1.0"
edition = "2021"
publish = false

[dependencies]
aes = "0.7"
rand = "0.7"
base64 = "0.13"
