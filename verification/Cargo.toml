[package]
name = "auction_averages"
version = "0.1.0"
edition = "2021"
publish = false

[dependencies]
dashmap = { version = "*", features = ["serde"] }
serde = { version = "*", features = ["derive"] }
postgres-types = { version = "*", features = ["derive"] }
tokio-postgres = "*"
