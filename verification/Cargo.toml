[package]
name = "kaze_nhanh"
version = "0.1.0"
edition = "2021"
publish = false

[dependencies]
pulldown-cmark = "*"
saku = "*"
git2 = { version = "*", default-features = false }
candle-core = "*"
candle-transformers = "*"
tokenizers = "*"
thiserror = "*"
