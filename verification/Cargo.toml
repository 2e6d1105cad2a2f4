[package]
name = "akri_webhook"
version = "0.1.0"
edition = "2021"
publish = false

[dependencies]
serde = { version = "*", features = ["derive"] }
serde_json = "*"
actix-web = { version = "*", features = ["openssl"] }
openssl = "*"
rustls = "0.19"
clap = "3.2"
