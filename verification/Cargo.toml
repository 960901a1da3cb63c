[package]
name = "novel_to_epub"
version = "0.1.0"
edition = "2021"
publish = false

[dependencies]
epub-builder = "=0.8.3"
scraper = "=0.29.0"
reqwest = { version = "=0.12.28", default-features = false, features = ["blocking", "rustls-tls"] }

[dev-dependencies]
zip = { version = "=6.0.0", default-features = false, features = ["deflate"] }
