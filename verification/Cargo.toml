[package]
name = "transaction_fetcher"
version = "0.1.0"
edition = "2021"
publish = false

[dependencies]
clap = "4.0"
futures = "0.3"
reqwest = { version = "0.11", features = ["json"] }
serde = { version = "1.0", features = ["derive"] }
serde_json = "1.0"
tokio = { version = "1.0", features = ["full"] }
