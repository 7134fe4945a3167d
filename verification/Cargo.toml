[package]
name = "erc7562_trace"
version = "0.1.0"
edition = "2021"
publish = false

[dependencies]
alloy-primitives = "*"
serde = { version = "*", features = ["derive"] }
serde_json = "*"
