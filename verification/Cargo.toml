[package]
name = "heed"
version = "0.1.0"
edition = "2021"
publish = false

[dependencies]
serde = "1"
bincode = "1"
serde_json = "1"
ordcode = "*"
protokit = "*"
