[package]
name = "audion"
version = "0.1.0"
edition = "2021"
publish = false

[dependencies]
base64 = "=0.23.1"
sha2 = "=0.11.0"
walkdir = "=2.5.0"
rusqlite = { version = "=0.40.2", features = ["bundled"] }
