[package]
name = "oxidize_pdf_core"
version = "0.1.0"
edition = "2021"
publish = false

[dependencies]
tiktoken-rs = "*"
serde = { version = "1", features = ["derive"] }
serde_json = "1"
