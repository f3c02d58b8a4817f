[package]
name = "tictactoe"
version = "0.1.0"
edition = "2021"
publish = false

[dependencies]
lazy_static = "*"
rand = "0.8"
regex = "*"
