[package]
name = "diffo"
version = "0.1.0"
edition = "2021"
publish = false

[dependencies]
base64 = "=0.22.1"
crossterm = "=0.29.0"
libc = "=0.2.191"
process-wrap = { version = "=10.0.1", features = ["std", "process-group"] }
serde_json = { version = "=1.0.154", features = ["preserve_order"] }
sha2 = "=0.10.9"
signal-hook = "=0.4.6"
tempfile = "=3.27.0"
thiserror = "=2.0.21"
tree-sitter = "=0.27.1"
tree-sitter-c = "*"
tree-sitter-cpp = "*"
tree-sitter-javascript = "=0.25.0"
tree-sitter-language = "=0.1.9"
tree-sitter-python = "*"
tree-sitter-rust = "=0.24.2"
tree-sitter-typescript = "*"
tree-sitter-zig = "=1.1.2"
unicode-width = "=0.2.3"
