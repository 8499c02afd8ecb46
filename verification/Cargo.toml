[package]
name = "jumpy"
version = "0.1.0"
edition = "2021"
publish = false

[dependencies]
dunce = "*"
clap = { version = "*", features = ["derive"] }
clap_complete = "*"
dirs = "*"
anyhow = "*"
