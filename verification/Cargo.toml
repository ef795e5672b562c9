[package]
name = "toolchain"
version = "0.1.0"
edition = "2021"
publish = false

[dependencies]
petgraph = "0.6"
rand = "0.7"
serde_json = "1"
