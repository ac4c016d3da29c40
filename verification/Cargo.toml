[package]
name = "slide_puzzle"
version = "0.1.0"
edition = "2021"
publish = false

[dependencies]
chrono = "0.4"
colored = "2"
indicatif = "0.17"
rayon = "1"
redis = { version = "0.27", features = ["tokio-comp"] }
reqwest = { version = "0.12", features = ["json", "multipart", "stream"] }
rustc-hash = "2"
serde = { version = "1", features = ["derive"] }
tokio = { version = "1", features = ["full"] }
