[package]
name = "domain_tree"
version = "0.1.0"
edition = "2021"
publish = false

[dependencies]
yaml-rust = "0.4"
serde = "1"
serde_json = "1"
serde_yaml = "0.9"
