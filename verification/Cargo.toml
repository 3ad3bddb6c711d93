[package]
name = "pomeranian"
version = "0.1.0"
edition = "2021"
publish = false

[dependencies]
chrono = { version = "=0.4.45", features = ["serde"] }
chrono-tz = "=0.9.0"
clap = { version = "=4.6.7", features = ["derive", "env"] }
color = "=0.3.3"
crossterm = "=0.27.0"
dialoguer = { version = "=0.11.0", features = ["fuzzy-select"] }
ical = "=0.11.0"
itertools = "=0.12.1"
notify-rust = "=4.18.2"
rand = "=0.8.8"
ratatui = "=0.26.3"
reqwest = { version = "=0.11.27", default-features = false, features = ["blocking"] }
rustbreak = { version = "=2.0.0", features = ["ron_enc"] }
serde = { version = "=1.0.229", features = ["derive"] }
