[package]
name = "context-smith"
version = "0.4.0"
edition = "2021"
publish = false

[dependencies]
anyhow = "1"
clap = { version = "4", features = ["derive"] }
git2 = { version = "0.19", default-features = false }
rusqlite = { version = "0.31", features = ["bundled"] }
serde = { version = "1", features = ["derive"] }
serde_json = "1"
tree-sitter = "0.22"
tree-sitter-go = "0.21"
tree-sitter-python = "0.21"
tree-sitter-rust = "0.21"
ureq = { version = "2", default-features = false, features = ["json"] }
