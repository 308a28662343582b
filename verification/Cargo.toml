[package]
name = "sigma_rule_parser"
version = "0.1.0"
edition = "2021"
publish = false

[dependencies]
anyhow = "=1.0.104"
log = "=0.4.34"
serde = { version = "1", features = ["derive"] }
serde_yaml = "0.9"

[dev-dependencies]
nom = "=7.1.3"
