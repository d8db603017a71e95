[package]
name = "mdt"
version = "0.1.0"
edition = "2021"
publish = false

[dependencies]
config = "*"
crossterm = "*"
dirs = "*"
itertools = "*"
ratatui = "*"
serde = { version = "*", features = ["derive"] }
tree-sitter-highlight = "*"
unicode-width = "*"
