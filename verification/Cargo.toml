[package]
name = "dfw"
version = "0.1.0"
edition = "2021"
publish = false

[dependencies]
iptables = "0.2"
shiplift = { version = "*", default-features = false }
toml = "*"
url = "*"
