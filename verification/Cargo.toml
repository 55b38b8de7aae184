[package]
name = "pallets"
version = "0.1.0"
edition = "2021"
publish = false

[dependencies]
sp-core = "=43.0.0"
sp-io = "=49.0.0"
