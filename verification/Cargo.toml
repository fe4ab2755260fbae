[package]
name = "streamlet"
version = "0.1.0"
edition = "2021"
publish = false

[dependencies]
sha2 = "0.10"
bincode = "1"
rand = "0.8"
hex = "0.4"
