[package]
name = "patchix"
version = "0.1.1"
edition = "2021"
publish = false

[dependencies]
anyhow = "1"
clap = { version = "4", features = ["derive"] }
serde_json = "1"
serde_yml = "0.0.12"
tempfile = "3"
toml = "0.8"
rust-ini = "0.21"
