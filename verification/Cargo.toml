[package]
name = "codesearch"
version = "0.1.0"
edition = "2021"
publish = false

[dependencies]
console = "*"
hmac-sha256 = "*"
home = "*"
ignore = "*"
indicatif = "*"
