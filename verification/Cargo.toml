[package]
name = "xberg-candle-ocr"
version = "0.1.0"
edition = "2021"
publish = false

[dependencies]
candle-core = "*"
candle-transformers = "*"
serde = { version = "1", features = ["derive"] }
