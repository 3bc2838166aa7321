[package]
name = "callquery"
version = "0.1.0"
edition = "2021"
publish = false

[dependencies]
regex = "1"
serde = { version = "1", features = ["derive"] }
serde_json = "1"
lsp-types = "0.94"
anyhow = "1"
structopt = "0.3"
petgraph = "0.6"
chrono = "0.4"
