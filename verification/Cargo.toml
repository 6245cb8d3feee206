[package]
name = "field_monitor"
version = "0.4.0"
edition = "2021"
publish = false

[dependencies]
dotenvy = "*"
serde = { version = "1", features = ["derive"] }
serde_json = "1"
toml = "*"
