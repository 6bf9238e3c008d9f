[package]
name = "cx"
version = "0.7.2"
edition = "2021"
publish = false

[dependencies]
memchr = "2"
serde = { version = "1", features = ["derive"] }
serde_json = "1"
clap = { version = "4", features = ["derive"] }
clap_complete = "4"
tree-sitter-language-pack = "*"
