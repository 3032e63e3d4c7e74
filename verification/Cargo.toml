[package]
name = "prime_shield_analyzer"
version = "0.1.0"
edition = "2021"
publish = false

[dependencies]
rayon = "*"
clap = { version = "*", features = ["derive"] }
csv = "*"
serde = { version = "*", features = ["derive"] }
serde_json = "*"
indicatif = "*"
