[package]
name = "kyde"
version = "0.1.0"
edition = "2021"
publish = false

[dependencies]
anyhow = "=1.0.104"
codebook-tree-sitter-latex = "*"
futures = "=0.3.34"
fuzzy-matcher = "=0.3.7"
pulldown-cmark = { version = "=0.13.6", default-features = false }
serde = { version = "=1.0.229", features = ["derive"] }
serde_json = "1"
similar = { version = "=2.7.0", features = ["text"] }
tree-sitter = "=0.25.10"
tree-sitter-bash = "=0.25.1"
tree-sitter-css = "=0.25.0"
tree-sitter-go = "=0.25.0"
tree-sitter-highlight = "=0.25.10"
tree-sitter-html = "=0.23.2"
tree-sitter-javascript = "=0.25.0"
tree-sitter-json = "=0.24.8"
tree-sitter-language = "=0.1.9"
tree-sitter-md = "=0.5.4"
tree-sitter-python = "=0.25.0"
tree-sitter-r = "=1.3.0"
tree-sitter-rust = "=0.24.2"
tree-sitter-toml-ng = "=0.7.0"
tree-sitter-typescript = "=0.23.2"
tree-sitter-yaml = "=0.7.2"
unicode-segmentation = "=1.13.3"
ureq = "=3.5.1"
