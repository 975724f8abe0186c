[package]
name = "cc_core"
version = "0.1.0"
edition = "2021"
publish = false

[dependencies]
serde = { version = "1", features = ["derive"] }
toml = "0.5"
snafu = "0.7"
anyhow = "1"
