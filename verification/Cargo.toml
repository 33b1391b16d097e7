[package]
name = "makedown"
version = "0.1.0"
edition = "2021"
publish = false

[dependencies]
clap = { version = "=4.6.7", features = ["derive"] }
lsp-server = "=0.7.9"
lsp-types = "=0.97.0"
minijinja = { version = "=2.24.0", features = ["fuel"] }
serde = { version = "=1.0.229", features = ["derive"] }
serde_json = "=1.0.154"
toml = "=0.8.23"
url = "=2.5.8"
