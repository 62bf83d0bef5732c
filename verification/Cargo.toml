[package]
name = "near_dns"
version = "0.1.0"
edition = "2021"
publish = false

[dependencies]
moka = { version = "*", features = ["sync"] }
url = "*"
hickory-proto = "*"
hickory-resolver = "*"
hickory-server = "*"
near-api = "*"
tokio = { version = "*", features = ["full"] }
clap = { version = "*", features = ["derive"] }
tracing = "*"
tracing-subscriber = { version = "*", features = ["env-filter"] }
serde = { version = "*", features = ["derive"] }
serde_json = "*"
async-trait = "*"
