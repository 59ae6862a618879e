[package]
name = "offline_sync"
version = "0.1.0"
edition = "2021"
publish = false

[dependencies]
uuid = { version = "=1.29.0", features = ["v4", "serde"] }
serde = { version = "=1.0.229", features = ["derive"] }
axum = "=0.7.9"
tokio = { version = "=1.54.1", features = ["macros", "rt-multi-thread", "sync", "net", "time"] }
reqwest = { version = "=0.12.28", default-features = false, features = ["json"] }
async-trait = "=0.1.92"
uniffi = { version = "=0.28.3", default-features = false }
