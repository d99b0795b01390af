[package]
name = "canteen"
version = "0.1.0"
edition = "2021"
publish = false

[dependencies]
chrono = { version = "0.4", features = ["serde"] }
lazy_static = "1"
postgres = { version = "0.19", features = ["with-chrono-0_4"] }
r2d2 = "0.8"
r2d2_postgres = "0.18"
regex = "=1.13.1"
serde = { version = "1", features = ["derive"] }
serde_json = "1"
