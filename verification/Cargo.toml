[package]
name = "redman"
version = "0.1.0"
edition = "2021"
publish = false

[dependencies]
html-escape = "*"
rand = "*"
anyhow = "*"
clap = { version = "*", features = ["derive"] }
colored = "*"
dotenv = "*"
reqwest = { version = "*", default-features = false, features = ["rustls-tls", "json"] }
rusqlite = { version = "*", features = ["bundled"] }
serde = { version = "*", features = ["derive"] }
serde_json = "*"
tokio = { version = "*", features = ["rt-multi-thread", "macros"] }
url = "*"
