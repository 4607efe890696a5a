[package]
name = "unxml"
version = "0.1.0"
edition = "2021"
publish = false

[dependencies]
quick-xml = "*"
scraper = "*"
anyhow = "*"
glob = "*"
clap = { version = "*", features = ["derive"] }
