[package]
name = "ut"
version = "0.1.0"
edition = "2021"
publish = false

[dependencies]
anyhow = "=1.0.104"
glob = "=0.3.4"
owo-colors = "=4.4.0"
pep508_rs = "=0.9.2"
serde = { version = "=1.0.229", features = ["derive"] }
toml = "=0.9.12"
usage-rs = { version = "=7.1.5", features = ["completions"] }
