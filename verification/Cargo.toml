[package]
name = "segmenter"
version = "0.1.0"
edition = "2021"
publish = false

[dependencies]
dotenv = "*"
postgrest = "*"
reqwest = { version = "*", default-features = false, features = ["json", "rustls-tls"] }
serde = { version = "*", features = ["derive"] }
serde_json = "*"
serenity = "*"
tokio = { version = "*", features = ["macros", "rt-multi-thread", "sync"] }
