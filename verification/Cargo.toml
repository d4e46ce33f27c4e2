[package]
name = "amazon_captcha_rs"
version = "0.1.0"
edition = "2021"
publish = false

[dependencies]
bincode = "1.3"
image = { version = "0.25", default-features = false }
