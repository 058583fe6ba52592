[package]
name = "parmake"
version = "0.1.0"
edition = "2021"
publish = false

[dependencies]
async-std = "1"
futures = "0.3"
indicatif = "0.17"

[dev-dependencies]
serde_json = "1"
