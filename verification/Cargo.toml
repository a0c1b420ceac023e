[package]
name = "rs_top"
version = "0.1.0"
edition = "2021"
publish = false

[dependencies]
color-eyre = "=0.6.5"
dirs = "=6.0.0"
openssh = "=0.11.6"
ratatui = "0.30"
serde = { version = "1", features = ["derive"] }
tokio = { version = "=1.54.1", features = ["full"] }
toml = "=0.8.23"
