[package]
name = "deepterra"
version = "0.1.0"
edition = "2021"
publish = false

[dependencies]
hcl-rs = "*"
url = "*"
glob = "*"
tokio = { version = "*", features = ["full"] }
futures = "*"
charming = "*"
uuid = { version = "*", features = ["v4"] }
thiserror = "*"
