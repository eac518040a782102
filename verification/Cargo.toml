[package]
name = "history_export"
version = "0.1.0"
edition = "2021"
publish = false

[dependencies]
chrono = "0.4"
clap = { version = "3.2", features = ["derive"] }
rusqlite = "*"
tempfile = "3"
