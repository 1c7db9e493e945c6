[package]
name = "cgn"
version = "0.1.0"
edition = "2021"
publish = false

[dependencies]
pgn-reader = "*"
flate2 = "*"
