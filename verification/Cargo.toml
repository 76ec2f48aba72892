[package]
name = "ironkey"
version = "0.1.0"
edition = "2021"
publish = false

[dependencies]
ring = "*"
base64 = "*"
zeroize = "*"
chrono = "*"
serde = { version = "*", features = ["derive"] }
serde_json = "*"
rpassword = "*"
dirs = "*"
clap = { version = "*", features = ["derive"] }
