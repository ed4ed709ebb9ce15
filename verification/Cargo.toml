[package]
name = "proton_stream"
version = "0.1.0"
edition = "2021"
publish = false

[dependencies]
async-trait = "0.1"
directories = "6"
futures = "0.3"
keyring = { version = "3", features = ["apple-native", "windows-native", "async-secret-service", "tokio", "crypto-rust"] }
libloading = "0.9"
libmpv2 = "=7.0.0"
libmpv2-sys = "=4.0.1"
lru = "=0.19.0"
reqwest = { version = "=0.13.5", default-features = false, features = ["json", "query", "rustls"] }
rusqlite = { version = "=0.41.1", features = ["bundled"] }
serde = { version = "1", features = ["derive"] }
serde_json = "=1.0.154"
sha2 = "=0.11.1"
thiserror = "2"
tokio = { version = "1", features = ["rt", "rt-multi-thread", "sync", "time", "macros", "fs", "io-util"] }
tracing = "0.1"
