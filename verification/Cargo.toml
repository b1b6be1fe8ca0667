[package]
name = "zw_to_anki"
version = "0.1.0"
edition = "2021"
publish = false

[dependencies]
anyhow = "=1.0.104"
cjk = "=0.2.5"
clap = { version = "=4.6.7", features = ["derive"] }
futures = "=0.3.34"
genanki-rs = "=0.4.0"
hsk = "=0.1.1"
jieba-rs = "0.6"
percent-encoding = "=2.3.2"
reqwest = "=0.13.5"
tokio = { version = "=1.54.1", features = ["full"] }
