[package]
name = "path_sense_lsp"
version = "0.1.0"
edition = "2021"
publish = false

[dependencies]
tree-sitter = "*"
tree-sitter-bash = "*"
tree-sitter-go = "*"
tree-sitter-javascript = "*"
tree-sitter-json = "*"
tree-sitter-nix = "*"
tree-sitter-python = "*"
tree-sitter-rust = "*"
tree-sitter-toml-ng = "*"
tree-sitter-typescript = "*"
tree-sitter-yaml = "*"
streaming-iterator = "*"
globset = "*"
serde = { version = "1", features = ["derive"] }
serde_json = "1"
tower-lsp = "0.20"
tokio = { version = "1", features = ["io-std", "macros", "rt-multi-thread", "sync"] }
