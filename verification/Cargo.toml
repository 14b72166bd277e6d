[package]
name = "kai"
version = "0.1.0"
edition = "2021"
publish = false

[dependencies]
serde = { version = "1", features = ["derive"] }
serde_json = "1"
serde_yaml = "0.9"
tokio = { version = "1", features = ["full"] }
tokio-stream = "0.1"
tracing = "0.1"
tracing-subscriber = "0.3"
aws-config = "1"
aws-sdk-iam = "1"
aws-types = "1"
dotenv = "0.15"
openai-rust = "*"
reqwest = { version = "0.12", features = ["json"] }
