[package]
name = "bl808_svd"
version = "0.1.0"
edition = "2021"
publish = false

[dependencies]
svd-rs = "*"
svd-encoder = "*"
