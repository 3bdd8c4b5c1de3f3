[package]
name = "octo_doc"
version = "0.1.0"
edition = "2021"
publish = false

[dependencies]
tiktoken-rs = "*"
pdf-extract = "*"
napi = { version = "3", default-features = false, features = ["napi4", "error_anyhow"] }
napi-derive = "3"

[dev-dependencies]
rand = "0.9"
