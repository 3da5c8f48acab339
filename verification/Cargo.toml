[package]
name = "dep_order"
version = "0.1.0"
edition = "2021"
publish = false

[dependencies]
cargo_toml = "*"
