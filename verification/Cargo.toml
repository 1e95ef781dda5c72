[package]
name = "ironring"
version = "0.1.0"
edition = "2021"
publish = false

[dependencies]
sha2 = "0.10"
dashmap = "6"
serde = { version = "1", features = ["derive"] }
serde_json = "1"
chrono = { version = "0.4", features = ["serde"] }
tokio = { version = "1", features = ["full"] }
axum = "0.8"
reqwest = { version = "0.12", default-features = false, features = ["json"] }
dotenv = "0.15"
