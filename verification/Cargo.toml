[package]
name = "locksmith"
version = "0.1.0"
edition = "2021"
publish = false

[dependencies]
bs58 = "*"
fast32 = "*"
urlencoding = "*"
serde = { version = "*", features = ["derive"] }
