[package]
name = "lazy_boone"
version = "0.1.0"
edition = "2021"
publish = false

[dependencies]
common-game = "*"
crossbeam-channel = "*"
log = "*"
rand = "*"
