[package]
name = "taggu"
version = "0.1.0"
edition = "2021"
publish = false

[dependencies]
glob = "0.3"
regex = "1"
yaml-rust = "0.4"
