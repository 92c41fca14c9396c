[package]
name = "clipboard_sync"
version = "0.1.0"
edition = "2021"
publish = false

[dependencies]
anyhow = "1"
base64 = "0.22"
clap = { version = "4", default-features = false, features = ["derive", "std", "help", "usage", "error-context"] }
futures-lite = "2"
tokio = { version = "1", default-features = false, features = ["rt-multi-thread", "macros", "time", "signal", "sync", "io-util"] }

[dev-dependencies]
serde_json = "1"
