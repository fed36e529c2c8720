[package]
name = "copilot_sessions"
version = "0.1.0"
edition = "2021"
publish = false

[dependencies]
chrono = "0.4"
dirs = "6"
serde_json = "1"
