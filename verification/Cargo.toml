[package]
name = "devjournal"
version = "0.1.0"
edition = "2021"
publish = false

[dependencies]
anyhow = "*"
chrono = "*"
dirs = "*"
docx-rs = "*"
serde = { version = "*", features = ["derive"] }
serde_json = "*"
