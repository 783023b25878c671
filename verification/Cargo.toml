[package]
name = "bindelta"
version = "0.1.0"
edition = "2021"
publish = false

[dependencies]
blake3 = "*"
zip = "*"
clap = { version = "*", features = ["derive"] }
