[package]
name = "mu"
version = "0.1.0"
edition = "2021"
publish = false

[dependencies]
base64 = "0.22"
crossterm = "0.29"
libc = "0.2"
serde = { version = "1", features = ["derive"] }
serde_json = "1"
unicode-width = "0.2"
