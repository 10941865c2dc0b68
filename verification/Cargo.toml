[package]
name = "wikibits"
version = "0.1.0"
edition = "2021"
publish = false

[dependencies]
unicode-width = "=0.2.0"
pulldown-cmark = { version = "=0.13.6", default-features = false }
anyhow = "=1.0.104"
clap = { version = "=4.6.7", features = ["derive"] }
walkdir = "=2.5.0"
notify = "=8.2.1"
ratatui = "=0.30.2"
ratatui-image = { version = "=11.1.0", default-features = false, features = ["crossterm"] }
image = { version = "=0.25.10", default-features = false, features = ["png", "jpeg", "gif", "bmp"] }
