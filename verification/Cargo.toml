[package]
name = "rust_i18n"
version = "0.1.0"
edition = "2021"
publish = false

[dependencies]
arc-swap = "*"
base62 = "*"
serde = { version = "*", features = ["derive"] }
serde_json = "*"
siphasher = "*"
toml = "*"
triomphe = "*"
