[package]
name = "tzbuddy"
version = "0.1.0"
edition = "2021"
publish = false

[dependencies]
anyhow = "*"
chrono = "*"
chrono-tz = "*"
clap = { version = "*", features = ["derive"] }
confy = "*"
prettytable-rs = "*"
serde = { version = "*", features = ["derive"] }
