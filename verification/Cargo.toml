[package]
name = "ksp"
version = "0.1.0"
edition = "2021"
publish = false

[dependencies]
serde = { version = "=1.0.229", features = ["derive"] }
serde_json = "=1.0.151"
quick-xml = { version = "=0.42.0", features = ["serialize"] }
clap = { version = "=4.6.7", features = ["derive"] }
