[package]
name = "tether-gossip"
version = "0.1.0"
edition = "2021"
publish = false

[dependencies]
anyhow = "1"
async-nats = "0.33"
clap = { version = "4", features = ["derive"] }
dirs = "5"
futures = "0.3"
hostname = "0.4"
serde = { version = "1", features = ["derive"] }
serde_json = "1"
sigpipe = "0.1"
tokio = { version = "1", features = ["rt-multi-thread", "macros", "time"] }
tracing = "0.1"
tracing-subscriber = { version = "0.3", features = ["env-filter", "fmt"] }
