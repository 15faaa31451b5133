[package]
name = "snake_tui"
version = "0.1.0"
edition = "2021"
publish = false

[dependencies]
chrono = "0.4"
clap = { version = "4", features = ["derive"] }
crossterm = "0.28"
dirs = "5"
serde = { version = "1", features = ["derive"] }
serde_json = "1"
