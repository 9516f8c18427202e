[package]
name = "account_sync"
version = "0.1.0"
edition = "2021"
publish = false

[dependencies]
iota-client = "*"
log = "0.4"
tokio = { version = "1", features = ["sync"] }
