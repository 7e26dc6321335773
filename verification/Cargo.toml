[package]
name = "dff"
version = "0.1.0"
edition = "2021"
publish = false

[dependencies]
sha2 = "0.10"
walkdir = "2"
rayon = "1"
clap = { version = "4", features = ["derive"] }
anyhow = "1"
crossterm = "0.28"
ratatui = "0.29"
opener = "0.7"
