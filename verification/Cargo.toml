[package]
name = "logalert"
version = "0.1.0"
edition = "2021"
publish = false

[dependencies]
chrono = "=0.4.45"
lru = { version = "=0.18.5", default-features = false }
serde = { version = "=1.0.229", features = ["derive"] }
toml = "=1.1.7"
inotify = "=0.11.5"
lettre = "=0.9.6"
lettre_email = "=0.9.4"
