[package]
name = "mlx_rerank"
version = "0.1.0"
edition = "2021"
publish = false

[dependencies]
anyhow = "1"
mlx-rs = "0.25"
serde_json = "1"
tiny_http = "0.12"
tokenizers = { version = "0.20", default-features = false, features = ["onig"] }
