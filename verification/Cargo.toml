[package]
name = "timetracker"
version = "0.1.0"
edition = "2021"
publish = false

[dependencies]
anyhow = "=1.0.104"
chrono = { version = "=0.4.45", features = ["serde"] }
clap = { version = "=4.6.7", features = ["derive"] }
clap_complete = { version = "=4.6.11", features = ["unstable-dynamic"] }
crossterm = "=0.28.1"
directories = "=6.0.0"
ratatui = "=0.29.0"
serde = { version = "=1.0.229", features = ["derive"] }
serde_json = "=1.0.154"
