[package]
name = "masp_indexer"
version = "0.1.0"
edition = "2021"
publish = false

[dependencies]
anyhow = "*"
clap = { version = "*", features = ["derive"] }
tendermint-rpc = { version = "*", features = ["http-client"] }
tokio = { version = "*", features = ["rt-multi-thread", "signal", "time", "macros"] }
tokio-retry = "*"
tracing = "*"
