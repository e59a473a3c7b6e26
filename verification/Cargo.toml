[package]
name = "dns_codec"
version = "0.1.0"
edition = "2021"

[dependencies]
anyhow = "1"
num-traits = "0.2"
