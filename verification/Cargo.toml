[package]
name = "shadow-deploy"
version = "0.1.0"
edition = "2021"
publish = false

[dependencies]
serde_json = "1"
serde = "1"
serde_derive = "1"
serde_yaml = "0.9"
tokio = { version = "1", features = ["macros", "rt-multi-thread"] }
chrono = "0.4"
aws-config = "1"
aws-sdk-sqs = "1"
aws-sdk-secretsmanager = "1"
