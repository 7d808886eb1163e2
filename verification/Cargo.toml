[package]
name = "batch_scheduler"
version = "0.1.0"
edition = "2021"
publish = false

[dependencies]
flume = "*"
minijinja = "*"
num = "*"
tokio = { version = "*", features = ["full"] }
tokio-stream = "*"
futures = "*"
async-trait = "*"
thiserror = "*"
