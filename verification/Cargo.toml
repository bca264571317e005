[package]
name = "takuzu"
version = "0.1.0"
edition = "2021"
publish = false

[dependencies]
godot = "*"
gdrust_kit = { version = "=0.1.2", features = ["utils"] }
