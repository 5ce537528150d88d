[package]
name = "rscrape"
version = "0.1.0"
edition = "2021"
publish = false

[dependencies]
clap = { version = "4", features = ["derive"] }
cli-table = "0.4"
colored = "2"
csv = "1"
inquire = "0.7"
reqwest = { version = "0.12", default-features = false, features = ["blocking", "rustls-tls"] }
scraper = "0.20"
serde_json = "1"
