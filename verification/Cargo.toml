[package]
name = "grapple"
version = "0.1.0"
edition = "2021"
publish = false

[dependencies]
hex = "0.4"
github_webhook_message_validator = "*"
serde = { version = "1", features = ["derive"] }
serde_json = "1"
serde_yaml = "*"
git2 = "*"
rocket = "0.5"
