[package]
name = "rebalancer"
version = "0.1.0"
edition = "2021"
publish = false

[dependencies]
anyhow = "1"
clap = "4"
json_comments = "0.2"
rust_decimal = "1"
serde = { version = "1", features = ["derive"] }
serde_json = "1"
termion = "2"
tui = { version = "0.19", default-features = false, features = ["termion"] }
