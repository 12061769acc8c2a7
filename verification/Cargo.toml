[package]
name = "network_flow"
version = "0.1.0"
edition = "2021"
publish = false

[dependencies]
graphviz-rust-bla = "*"
dot-structures = "*"
dot-generator = "*"
