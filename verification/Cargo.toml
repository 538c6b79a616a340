[package]
name = "vodchat"
version = "0.1.0"
edition = "2021"
publish = false

[dependencies]
hhmmss = "*"
lazy_static = "*"
regex = "*"
reqwest = { version = "*", default-features = false, features = ["blocking"] }
