[package]
name = "json2struct"
version = "0.1.0"
edition = "2021"
publish = false

[dependencies]
inflections = "*"
serde_json = "*"
