[package]
name = "relics"
version = "0.1.0"
edition = "2021"
publish = false

[dependencies]
bitcoin = "0.32"
ordinals = "*"
ciborium = "0.2"
serde = { version = "1", features = ["derive"] }
serde_json = "1"
serde_yaml = "0.9"
hex = "0.4"
