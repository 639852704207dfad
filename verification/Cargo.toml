[package]
name = "prolyxena"
version = "0.1.0"
edition = "2021"
publish = false

[dependencies]
clap = { version = "4", features = ["derive"] }
crossterm = "0.28"
ratatui = "0.29"
indicatif = "0.17"
walkdir = "2"
indexmap = "2"
