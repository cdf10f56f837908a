[package]
name = "logterminator"
version = "0.1.0"
edition = "2021"
publish = false

[dependencies]
chrono = "*"
scraper = "*"
url = "*"
reqwest = { version = "*", default-features = false, features = ["blocking", "stream"] }
tokio = { version = "*", features = ["rt-multi-thread", "sync", "time", "macros"] }
futures = "*"
rusqlite = { version = "*", features = ["bundled"] }
walkdir = "*"
