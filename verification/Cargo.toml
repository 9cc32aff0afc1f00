[package]
name = "rust_dispatcher"
version = "0.1.0"
edition = "2021"
publish = false

[dependencies]
anyhow = "=1.0.104"
dotenv = "0.15"
log = "0.4"
rdkafka = { version = "=0.37.0", default-features = false, features = ["tokio"] }
rocket = { version = "0.5", features = ["json"] }
serde = { version = "1", features = ["derive"] }
serde_json = "1"
tokio = { version = "1", features = ["rt-multi-thread", "macros"] }

[dev-dependencies]
winnow = "=0.7.15"
