[package]
name = "h_5n1p3r"
version = "0.1.0"
edition = "2021"
publish = false

[dependencies]
anyhow = "=1.0.104"
async-trait = "=0.1.92"
chrono = "=0.4.45"
futures = "=0.3.34"
governor = "=0.6.3"
moka = { version = "=0.12.16", features = ["future"] }
petgraph = "=0.6.5"
prometheus = { version = "=0.13.4", default-features = false }
rand = "=0.8.8"
reqwest = { version = "=0.12.28", default-features = false, features = ["json"] }
serde = { version = "=1.0.229", features = ["derive"] }
serde_json = "=1.0.154"
solana-program = "=1.18.26"
tokio = { version = "=1.54.1", features = ["rt", "rt-multi-thread", "sync", "time", "macros"] }
tokio-retry = "=0.3.2"
tokio-util = "=0.7.20"
tracing = "=0.1.44"
