[package]
name = "rusted_post"
version = "0.1.0"
edition = "2021"
publish = false

[dependencies]
ahash = "0.4"
roaring = "*"
regex = "*"
regex-syntax = "0.6"
crossbeam-channel = "*"
