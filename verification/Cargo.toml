[package]
name = "reorg_calc"
version = "0.1.0"
edition = "2021"
publish = false

[dependencies]
chrono = "*"
anyhow = "*"
bitcoincore-rpc = "*"
clap = { version = "*", features = ["derive"] }
crossterm = "*"
dotenvy = "*"
ratatui = "*"
