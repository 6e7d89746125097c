[package]
name = "ledger_indexer"
version = "0.1.0"
edition = "2021"
publish = false

[dependencies]
hex = "*"
candid = "*"
ic-agent = "*"
mongodb = "2"
tokio = { version = "*", features = ["macros", "rt-multi-thread", "time"] }
serde = { version = "*", features = ["derive"] }
chrono = "*"
futures = "*"
num-traits = "*"
log = "*"
