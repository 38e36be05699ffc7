[package]
name = "letitrust"
version = "0.1.0"
edition = "2021"
publish = false

[dependencies]
rustdns = "*"
rand = "0.8"
serde_json = "*"
reqwest = { version = "*", default-features = false }
tokio = { version = "*", features = ["macros", "rt-multi-thread"] }
toml = "*"
