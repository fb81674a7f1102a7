[package]
name = "envq"
version = "0.1.3"
edition = "2021"
publish = false

[dependencies]
imara-diff = "0.2"
clap = "4"
clap_complete = "4"
serde = { version = "1", features = ["derive"] }
serde_json = "1"
tempfile = "3"
