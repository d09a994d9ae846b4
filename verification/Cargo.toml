[package]
name = "http_ip"
version = "0.1.0"
edition = "2021"
publish = false

[dependencies]
ip-cidr = "=0.1.0"
http = "=1.5.0"
axum = { version = "=0.8.9", default-features = false, features = ["tokio"] }
tonic = { version = "=0.14.6", default-features = false }
