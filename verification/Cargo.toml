[package]
name = "spark_middleware"
version = "0.1.0"
edition = "2021"
publish = false

[dependencies]
chrono = "0.4"
serde = { version = "1", features = ["derive"] }
serde_json = "1"
dashmap = "*"
tokio = { version = "1", features = ["full"] }
tokio-tungstenite = "*"
futures-util = "0.3"
reqwest = { version = "*", default-features = false, features = ["json"] }
url = "2"
toml = "*"
dotenv = "0.15"
env_logger = "*"
log = "0.4"
tracing = "0.1"
prometheus = { version = "*", default-features = false }
lazy_static = "1"
thiserror = "*"
anyhow = "1"
async-trait = "*"
schemars = "0.8"
rocket = { version = "0.5", features = ["json"] }
async-graphql = "*"
async-graphql-rocket = "*"
rocket_okapi = { version = "0.9", features = ["swagger"] }
async-tungstenite = { version = "*", features = ["tokio-runtime"] }
rustc-hex = "2"
