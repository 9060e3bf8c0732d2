[package]
name = "manga_notify"
version = "0.1.0"
edition = "2021"
publish = false

[dependencies]
collapse = "*"
scraper = "*"
reqwest = { version = "*", default-features = false, features = ["rustls-tls"] }
serenity = { version = "*", default-features = false, features = ["http", "model", "builder", "rustls_backend"] }
tokio = { version = "*", features = ["macros", "rt-multi-thread"] }
