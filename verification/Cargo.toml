[package]
name = "lichen"
version = "0.1.0"
edition = "2021"
publish = false

[dependencies]
wasm-encoder = "*"
wasmi = "*"
lsp-types = "*"
