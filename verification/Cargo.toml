[package]
name = "re0box"
version = "0.1.0"
edition = "2021"
publish = false

[dependencies]
anyhow = "*"
configparser = "*"
log = "*"
simplelog = "*"
