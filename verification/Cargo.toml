[package]
name = "codeprints_analyzer"
version = "0.1.0"
edition = "2021"
publish = false

[dependencies]
anyhow = "*"
chrono = "*"
duct = "*"
glob = "*"
quantiles = "*"
serde = { version = "*", features = ["derive"] }
serde_json = "*"
structopt = "*"
