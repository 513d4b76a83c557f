[package]
name = "otograph"
version = "0.1.0"
edition = "2021"
publish = false

[dependencies]
whatlang = "0.16"
anyhow = "1"
clap = { version = "4", features = ["derive", "env"] }
indicatif = "0.17"
libloading = "0.8"
reqwest = { version = "0.12", default-features = false, features = ["multipart"] }
serde = { version = "1", features = ["derive"] }
serde_json = "1"
tokio = { version = "1", features = ["rt-multi-thread", "macros", "sync", "time"] }
walkdir = "2"
