[package]
name = "juggler"
version = "0.1.0"
edition = "2021"
publish = false

[dependencies]
alloy = { version = "=0.1.4", default-features = false, features = ["std", "providers", "provider-ws", "provider-ipc", "pubsub", "transports"] }
serde = { version = "=1.0.229", features = ["derive"] }
serde_json = { version = "=1.0.154", features = ["raw_value"] }
tokio = { version = "=1.54.1", features = ["macros", "rt-multi-thread", "sync", "time"] }
tokio-stream = "=0.1.19"
tracing = "=0.1.44"
tracing-subscriber = { version = "0.3", default-features = false, features = ["ansi", "fmt"] }
