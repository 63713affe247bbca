[package]
name = "route_search"
version = "0.1.0"
edition = "2021"
publish = false

[dependencies]
queues = "*"
anyhow = "*"
serde = { version = "*", features = ["derive"] }
serde_json = "*"
chrono = "*"
uuid = { version = "*", features = ["v4"] }
tokio = { version = "*", features = ["macros", "rt"] }
aws-config = "*"
aws-sdk-s3 = "*"
lambda_runtime = "*"
