[package]
name = "anaphora"
version = "0.1.0"
edition = "2021"
publish = false

[dependencies]
meganeura = "=0.3.0"
tokenizers = { version = "=0.23.2", default-features = false, features = ["fancy-regex"] }
parquet = "=60.1.0"
arrow-array = "=60.1.0"
