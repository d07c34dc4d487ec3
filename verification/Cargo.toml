[package]
name = "toml_env"
version = "0.1.0"
edition = "2021"
publish = false

[dependencies]
log = "=0.4.34"
serde = { version = "=1.0.229", features = ["derive"] }
serde-toml-merge = "=0.3.9"
thiserror = "=1.0.69"
toml = { version = "=0.8.23", features = ["preserve_order"] }
