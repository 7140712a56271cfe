[package]
name = "xneo"
version = "0.2.0"
edition = "2021"
publish = false

[dependencies]
anyhow = "1"
chrono = "0.4"
clap = { version = "4", features = ["derive"] }
colored = "2"
dirs = "5"
fuzzy-matcher = "0.3"
globset = "0.4"
indicatif = "0.17"
rusqlite = { version = "*", features = ["bundled", "chrono"] }
serde = { version = "1", features = ["derive"] }
serde_json = "1"
shellexpand = "3"
