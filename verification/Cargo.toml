[package]
name = "async_http_client"
version = "0.2.0"
edition = "2021"
publish = false

[dependencies]
url = "*"
bytes = "0.4"
futures = "0.1"
tokio-core = "0.1"
tokio-io = "0.1"
