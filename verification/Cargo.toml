[package]
name = "terax_index"
version = "0.1.0"
edition = "2021"
publish = false

[dependencies]
crc32fast = "1"
tree-sitter = "0.24"
tree-sitter-typescript = "0.23"
nucleo-matcher = "0.3"
rkyv = "0.8"
memmap2 = "0.9"
serde = { version = "1", features = ["derive"] }
ignore = "0.4"
notify = "8"

[dev-dependencies]
tempfile = "3"
