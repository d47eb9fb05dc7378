[package]
name = "stax"
version = "0.1.0"
edition = "2021"
publish = false

[dependencies]
anyhow = "1"
clap = { version = "4", features = ["derive"] }
dialoguer = { version = "0.11", features = ["fuzzy-select"] }
owo-colors = "*"
serde = { version = "1", features = ["derive"] }
serde_json = "1"
