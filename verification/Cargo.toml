[package]
name = "rustygenmo"
version = "0.1.0"
edition = "2021"
publish = false

[dependencies]
sled = "0.34"
bincode = "1"
rand = "0.8"
clap = "2"
url = "2"
scraper = "0.12"
isahc = "0.9"
