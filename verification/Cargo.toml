[package]
name = "bytell_map"
version = "0.1.0"
edition = "2021"
publish = false

[dependencies]
fnv = "1.0"

[dev-dependencies]
rand = "0.6"
