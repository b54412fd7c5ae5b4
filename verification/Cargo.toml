[package]
name = "mobile-inspector-cli"
version = "0.1.0"
edition = "2021"
publish = false

[dependencies]
roxmltree = "0.20"
regex = "1"
sxd-document = "0.3"
sxd-xpath = "0.4"
clap = { version = "4", features = ["derive"] }
dirs = "5"
reqwest = { version = "0.12", default-features = false, features = ["blocking", "json"] }
rustyline = "14"
serde = { version = "1", features = ["derive"] }
serde_json = "1"
toml = "0.8"
tracing-subscriber = { version = "0.3", features = ["env-filter"] }
thiserror = "1"
anyhow = "1"
