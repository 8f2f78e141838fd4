[package]
name = "task_core"
version = "0.1.0"
edition = "2021"
publish = false

[dependencies]
anyhow = "1"
async-trait = "0.1"
futures = "0.3"
prost = "*"
tokio = { version = "1", features = ["sync", "time", "macros", "rt"] }
tokio-stream = "0.1"
tracing = "0.1"
