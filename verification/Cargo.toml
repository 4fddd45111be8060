[package]
name = "stock_signals"
version = "0.1.0"
edition = "2021"
publish = false

[dependencies]
async-std = { version = "=1.13.2", features = ["attributes", "unstable"] }
async-trait = "=0.1.92"
chrono = "=0.4.45"
clap = { version = "=3.2.25", features = ["derive"] }
xactor = "=0.7.11"
yahoo_finance_api = "=1.2.2"
