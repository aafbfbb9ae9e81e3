[package]
name = "bolt"
version = "0.1.0"
edition = "2021"
publish = false

[dependencies]
anyhow = "1"
crossterm = "0.27"
ctrlc = "3"
fuzzy-matcher = "0.3"
ratatui = "0.26"
serde_yaml = "0.9"
