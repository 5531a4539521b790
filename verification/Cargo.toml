[package]
name = "metlo_agent"
version = "0.1.0"
edition = "2021"
publish = false

[dependencies]
httparse = "*"
pktparse = "*"
url = "*"
regex = "*"
