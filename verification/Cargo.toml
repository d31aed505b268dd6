[package]
name = "mailcrush"
version = "0.1.0"
edition = "2021"
publish = false

[dependencies]
base64 = "=0.22.1"
flate2 = "=1.1.10"
lz4_flex = "=0.11.6"
zstd = "=0.13.4"
sha2 = "=0.10.9"
mail-parser = "=0.11.9"
html2text = "=0.17.4"
clap = { version = "=4.6.7", features = ["derive"] }
tracing = "=0.1.44"
tracing-subscriber = "=0.3.23"
