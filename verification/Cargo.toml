[package]
name = "lab_checker"
version = "0.1.0"
edition = "2021"
publish = false

[dependencies]
async-std = "1"
futures = "0.3"
lettre = "0.9"
lettre_email = "0.9"
native-tls = "0.2"
serde = { version = "1", features = ["derive"] }
serde_json = "1"
slog = "2"
slog-async = "2"
slog-term = "2"
ureq = { version = "1", features = ["json"] }
