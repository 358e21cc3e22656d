[package]
name = "iaq_monitor"
version = "0.1.0"
edition = "2021"
publish = false

[dependencies]
esp-idf-svc = "*"
anyhow = "1"
log = "0.4"
