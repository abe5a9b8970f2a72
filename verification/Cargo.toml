[package]
name = "summa"
version = "0.6.1"
edition = "2021"
publish = false

[dependencies]
anyhow = "1"
chrono = "0.4"
clap = { version = "4", features = ["derive"] }
html2text = "*"
pdf-extract = "*"
serde = { version = "1", features = ["derive"] }
serde_json = "1"
serde_yaml = "0.9"
sigpipe = "*"
ureq = "2"
walkdir = "2"

[dev-dependencies]
tempfile = "3"
