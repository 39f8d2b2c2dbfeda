[package]
name = "sysy_core"
version = "0.1.0"
edition = "2021"
publish = false

[dependencies]
rand = "=0.9.5"
tree-sitter = "=0.25.10"
tower-lsp = "=0.20.0"
tokio = { version = "=1.53.2", features = ["full"] }
dashmap = "=6.2.1"
clap = { version = "=4.5.61", features = ["derive"] }
