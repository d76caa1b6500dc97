[package]
name = "xlxscraper"
version = "0.1.0"
edition = "2021"
publish = false

[dependencies]
scraper = { version = "=0.19.1", features = ["deterministic"] }
sha2 = "=0.10.9"
serde = { version = "=1.0.229", features = ["derive"] }
serde_json = "=1.0.154"
anyhow = "=1.0.104"
reqwest = { version = "=0.11.27", features = ["blocking"] }
chrono = "=0.4.45"
log = "=0.4.35"
simple_logger = "=5.2.0"
