[package]
name = "chessbot"
version = "0.1.0"
edition = "2021"
publish = false

[dependencies]
cozy-chess = "0.3"
crossbeam-channel = "0.5"
flate2 = "1"
sfbinpack = "*"
tar = "0.4"
zstd = "0.13"
