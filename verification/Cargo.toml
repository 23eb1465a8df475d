[package]
name = "search_engine"
version = "0.1.0"
edition = "2021"
publish = false

[dependencies]
tokio = { version = "*", features = ["rt-multi-thread", "macros", "time", "sync"] }
reqwest = { version = "*", default-features = false }
scraper = "*"
url = "*"
whatlang = "*"
