[package]
name = "gemini_watermark_remover"
version = "0.1.0"
edition = "2021"
publish = false

[dependencies]
image = { version = "0.25", default-features = false, features = ["png", "jpeg", "webp", "bmp"] }
rayon = "1"
clap = { version = "4", features = ["derive"] }
