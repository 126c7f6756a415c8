[package]
name = "metric_proxy"
version = "0.1.0"
edition = "2021"
publish = false

[dependencies]
clap = { version = "*", features = ["derive"] }
dirs = "*"
log = "*"
reqwest = { version = "*", default-features = false, features = ["blocking", "json"] }
retry = "*"
rouille = "*"
serde = { version = "*", features = ["derive"] }
serde_json = "*"
