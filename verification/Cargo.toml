[package]
name = "rim_manager"
version = "0.1.0"
edition = "2021"
publish = false

[dependencies]
anyhow = "1"
homedir = "*"
quick-xml = { version = "*", features = ["serialize"] }
serde = { version = "1", features = ["derive"] }
serde_with = "*"
toml = "*"
url = { version = "2", features = ["serde"] }
versions = "*"
