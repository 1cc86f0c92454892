[package]
name = "currency_rates"
version = "0.1.0"
edition = "2021"
publish = false

[dependencies]
serde_json = "*"
serde = { version = "*", features = ["derive"] }
anyhow = "*"
clap = { version = "*", features = ["derive"] }
dotenv = "*"
tokio = { version = "*", features = ["rt-multi-thread", "macros", "net"] }
axum = "*"
tower-http = { version = "*", features = ["trace"] }
tracing-subscriber = "*"
reqwest = { version = "*", default-features = false, features = ["rustls-tls"] }
