[package]
name = "lsp_client"
version = "0.1.0"
edition = "2021"
publish = false

[dependencies]
anyhow = "1"
lsp-types = "0.97"
petgraph = "0.6"
serde = { version = "1", features = ["derive"] }
serde_json = "1"
walkdir = "2"
