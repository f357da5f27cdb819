[package]
name = "blogcore"
version = "0.1.0"
edition = "2021"
publish = false

[dependencies]
anyhow = "*"
axum = "*"
chrono = "*"
flate2 = "*"
markdown = "*"
mustache = "*"
rss = "*"
serde = "*"
tokio = { version = "*", features = ["rt-multi-thread", "net", "macros"] }
tower-http = { version = "*", features = ["fs"] }
