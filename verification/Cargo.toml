[package]
name = "transaction_processor"
version = "0.1.0"
edition = "2021"
publish = false

[dependencies]
anyhow = "*"
clap = { version = "*", features = ["derive"] }
csv = "*"
log = "*"
serde = { version = "*", features = ["derive"] }
simple-logging = "*"
