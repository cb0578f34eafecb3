[package]
name = "many_cord_pass"
version = "0.1.0"
edition = "2021"
publish = false

[dependencies]
regex = "1"
urlencoding = "2"
rosc = "0.10"
anyhow = "1"
clap = { version = "4", features = ["derive"] }
crossterm = "*"
hidapi = "*"
minifb = "*"
obws = "*"
reqwest = { version = "*", default-features = false }
serde = { version = "1", features = ["derive"] }
serde_yaml = "0.9"
streamdeck = "*"
tokio = { version = "1", features = ["full"] }
