[package]
name = "strand_core"
version = "0.1.0"
edition = "2021"
publish = false

[dependencies]
chrono = "*"
sha2 = "*"
similar = "*"
tree-sitter = "*"
tree-sitter-highlight = "*"
tree-sitter-c = "*"
tree-sitter-c-sharp = "*"
tree-sitter-cpp = "*"
tree-sitter-css = "*"
tree-sitter-html = "*"
tree-sitter-java = "*"
tree-sitter-javascript = "*"
tree-sitter-json = "*"
tree-sitter-lua = "*"
tree-sitter-md = "*"
tree-sitter-php = "*"
tree-sitter-python = "*"
tree-sitter-ruby = "*"
tree-sitter-rust = "*"
tree-sitter-swift = "*"
tree-sitter-toml-ng = "*"
tree-sitter-typescript = "*"
tree-sitter-yaml = "*"
