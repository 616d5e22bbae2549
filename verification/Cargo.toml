[package]
name = "lyricrs_cache"
version = "0.1.0"
edition = "2021"
publish = false

[dependencies]
sha2 = "=0.11.0"
hex = "=0.4.3"
dirs = "=7.0.0"
dotenv = "=0.15.0"
regex = "=1.13.1"
tokio = { version = "=1.53.2", features = ["full"] }
reqwest = "=0.13.5"
rspotify = { version = "=0.16.1", features = ["cli"] }
scraper = "=0.27.0"
