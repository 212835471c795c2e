[package]
name = "ndn_forwarder"
version = "0.1.0"
edition = "2021"
publish = false

[dependencies]
crossbeam = "0.8"
fasthash = "0.4"
nix = "0.25"
socket2 = "0.4"
