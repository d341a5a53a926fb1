[package]
name = "sprig"
version = "0.1.0"
edition = "2021"
publish = false

[dependencies]
chrono = "=0.4.45"
chrono-tz = "=0.10.4"
gcollections = "=1.6.0"
intervallum = "=1.4.4"
regex = "=1.13.1"
rust-argon2 = "*"
serde = { version = "=1.0.229", features = ["derive"] }
serde_json = "=1.0.154"
