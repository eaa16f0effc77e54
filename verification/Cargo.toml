[package]
name = "hyprclock"
version = "0.1.2"
edition = "2021"
publish = false

[dependencies]
chrono = "*"
clap = { version = "*", features = ["derive"] }
dirs = "*"
serde = { version = "*", features = ["derive"] }
serde_json = "*"
toml = "*"

[dev-dependencies]
icalendar = "*"
