[package]
name = "crustal"
version = "0.1.0"
edition = "2021"
publish = false

[dependencies]
lsp-server = "0.7"
lsp-types = "0.95"
serde = "1"
serde_json = "1"
