[package]
name = "daily_knowledge"
version = "0.1.0"
edition = "2021"
publish = false

[dependencies]
anyhow = "1"
axum = "*"
clap = { version = "4", features = ["derive"] }
notify = "*"
percent-encoding = "2"
regex = "1"
serde = { version = "1", features = ["derive"] }
serde_json = "1"
tantivy = "*"
tantivy-jieba = "*"
tokio = { version = "1", features = ["full"] }
toml = "*"
tower-http = { version = "*", features = ["fs"] }
tracing = "0.1"
tracing-subscriber = "0.3"
