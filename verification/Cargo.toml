[package]
name = "novel_core"
version = "0.1.0"
edition = "2021"
publish = false

[dependencies]
regex = "=1.13.1"
encoding_rs = "=0.8.44"
chardetng = "=0.1.17"
serde = { version = "=1.0.229", features = ["derive"] }
serde_json = "=1.0.154"
rusqlite = { version = "*", features = ["bundled"] }
ureq = "*"
