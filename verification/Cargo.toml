[package]
name = "daachorse"
version = "1.0.0"
edition = "2021"
publish = false

[dependencies]
serde = { version = "=1.0.229", features = ["derive"] }
bitcode = { version = "=0.6.9", features = ["derive"] }

[dev-dependencies]
serde_json = "1"
