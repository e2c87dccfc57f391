[package]
name = "telemetry_relay"
version = "0.1.0"
edition = "2021"
publish = false

[dependencies]
serde_json = "1"
reqwest = { version = "0.12", default-features = false }
tokio = { version = "1", features = ["macros", "rt-multi-thread", "process", "io-util"] }

[dev-dependencies]
postcard = { version = "1", features = ["use-std"] }
serde = "1"
