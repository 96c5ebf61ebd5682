[package]
name = "pgn_reader"
version = "0.1.0"
edition = "2021"
publish = false

[dependencies]
btoi = "=0.5.0"
memchr = "=2.8.3"
shakmaty = "=0.29.4"
rand = "=0.4.6"
