[package]
name = "nexview"
version = "0.1.0"
edition = "2021"
publish = false

[dependencies]
gif = "0.13"
flate2 = "1"
image = { version = "0.25", default-features = false, features = ["png", "jpeg"] }
egui = "0.31"
tokio = { version = "1", features = ["rt-multi-thread", "macros", "sync", "time"] }
reqwest = { version = "0.12", default-features = false, features = ["rustls-tls"] }
chrono = "0.4"
serde = { version = "1", features = ["derive"] }
serde_json = "1"
log = "0.4"
env_logger = "0.11"
