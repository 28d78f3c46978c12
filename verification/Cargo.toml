[package]
name = "scrabby"
version = "0.1.0"
edition = "2021"
publish = false

[dependencies]
bincode = "1"
colored = "*"
serde = "1"
serde_derive = "1"
