[package]
name = "metrics_pipeline"
version = "0.1.0"
edition = "2021"
publish = false

[dependencies]
axum = "=0.4.8"
env_logger = "=0.9.3"
handlebars = "=4.5.0"
hyper = { version = "=0.14.32", features = ["full"] }
log = "=0.4.34"
openweathermap = "=0.2.4"
serde_json = "=1.0.154"
tokio = { version = "=1.54.1", features = ["full"] }
