[package]
name = "guessing_game"
version = "0.1.0"
edition = "2021"
publish = false

[dependencies]
rand = "*"
chrono = "*"
colored = "*"
console = "*"
dialoguer = "*"
rodio = "*"

[dev-dependencies]
serde_json = "*"
