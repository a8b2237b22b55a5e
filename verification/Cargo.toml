[package]
name = "revo"
version = "0.1.0"
edition = "2021"
publish = false

[dependencies]
anyhow = "1"
axum = "0.8"
dotenvy = "0.15"
env_logger = "0.11"
envconfig = "0.11"
log = "0.4"
once_cell = "1"
opentelemetry = "0.30"
opentelemetry_sdk = "0.30"
opentelemetry-semantic-conventions = { version = "0.30", features = ["semconv_experimental"] }
opentelemetry-stdout = "0.30"
serde_json = "1"
tokio = { version = "1", features = ["full"] }
tracing = "0.1"
tracing-opentelemetry = "0.31"
tracing-subscriber = "0.3"
