[package]
name = "place_chains"
version = "0.1.0"
edition = "2021"
publish = false

[dependencies]
anyhow = "*"
csv = "*"
ctrlc = "*"
flate2 = "*"
separator = "*"
serde = { version = "*", features = ["derive"] }
