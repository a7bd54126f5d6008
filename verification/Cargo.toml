[package]
name = "shbundle"
version = "0.1.0"
edition = "2021"
publish = false

[dependencies]
tree-sitter = "*"
tree-sitter-bash = "*"
base64 = "*"
clap = { version = "*", features = ["cargo"] }
color-eyre = "*"
