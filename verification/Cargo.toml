[package]
name = "autoreview"
version = "0.1.0"
edition = "2021"
publish = false

[dependencies]
anyhow = "=1.0.104"
globset = "=0.4.21"
include_dir = "=0.7.4"
regex = "=1.13.1"
roxmltree = "=0.20.0"
rusqlite = { version = "=0.32.1", features = ["bundled"] }
serde = { version = "=1.0.229", features = ["derive"] }
serde_json = "=1.0.154"
serde_yaml = "=0.9.34+deprecated"
sha2 = "=0.10.9"
tempfile = "=3.27.0"
tree-sitter = "=0.25.10"
tree-sitter-go = "0.25"
tree-sitter-java = "=0.23.5"
tree-sitter-javascript = "=0.23.1"
tree-sitter-kotlin-ng = "=1.1.0"
tree-sitter-typescript = "=0.23.2"
