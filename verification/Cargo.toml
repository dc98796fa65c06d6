[package]
name = "route_inspection"
version = "0.1.0"
edition = "2021"
publish = false

[dependencies]
env_logger = "*"
log = "*"
prettytable-rs = "*"
serde = { version = "*", features = ["derive"] }
serde_json = "*"
