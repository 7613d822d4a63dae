[package]
name = "txgraph"
version = "0.1.0"
edition = "2021"
publish = false

[dependencies]
reqwest = { version = "*", default-features = false, features = ["json"] }
serde_json = "*"
solana-sdk = "*"
structopt = "*"
tokio = { version = "*", features = ["macros", "rt-multi-thread"] }
