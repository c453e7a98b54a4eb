[package]
name = "rust-dictionary"
version = "0.1.0"
edition = "2021"
publish = false

[dependencies]
unidecode = "0.3"
rand = "0.8"
scraper = "0.17"
rocket = "0.5"
serde = { version = "1", features = ["derive"] }
serde_json = "1"
csv = "1"
dotenv = "0.15"
lazy_static = "1"
tokio = { version = "1", features = ["rt-multi-thread"] }
reqwest = { version = "0.12", default-features = false, features = ["blocking", "rustls-tls"] }
