[package]
name = "chalk"
version = "0.1.0"
edition = "2021"
publish = false

[dependencies]
petgraph = "0.4.13"
