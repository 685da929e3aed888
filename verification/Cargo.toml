[package]
name = "skill_loader"
version = "0.1.0"
edition = "2021"
publish = false

[dependencies]
dunce = "1"
serde = { version = "1", features = ["derive"] }
serde_yaml = "0.9"
tracing = "0.1"
