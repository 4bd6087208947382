[package]
name = "codesize"
version = "0.1.0"
edition = "2021"
publish = false

[dependencies]
tree-sitter = "*"
tree-sitter-python = "*"
tree-sitter-rust = "*"
tree-sitter-go = "*"
tree-sitter-javascript = "*"
tree-sitter-typescript = "*"
tree-sitter-java = "*"
tree-sitter-c = "*"
tree-sitter-cpp = "*"
tree-sitter-swift = "*"
tree-sitter-lua = "*"
tree-sitter-objc = "*"
tree-sitter-zig = "*"
serde = { version = "1", features = ["derive"] }
toml = "*"
dirs = "*"
ignore = "*"
glob = "*"
csv = "*"
anyhow = "1"
clap = { version = "4", features = ["derive"] }
clap_complete = "4"

[dev-dependencies]
tempfile = "3"
