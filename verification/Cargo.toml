[package]
name = "matchmaking"
version = "0.1.0"
edition = "2021"
publish = false

[dependencies]
fastrand = "*"
aws-config = "*"
aws-sdk-dynamodb = "*"
lambda_runtime = "*"
serde_json = "*"
tokio = { version = "*", features = ["macros"] }
