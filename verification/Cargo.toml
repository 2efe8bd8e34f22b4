[package]
name = "asset_visibility"
version = "0.1.0"
edition = "2021"
publish = false

[dependencies]
base64 = "*"
psd = "*"
image = "*"
