[package]
name = "protohackers"
version = "0.1.0"
edition = "2021"
publish = false

[dependencies]
color-eyre = "0.6"
num-bigint = "0.4"
num-iter = "0.1"
num-traits = "0.2"
regex = "1"
serde = { version = "1", features = ["derive"] }
serde_json = { version = "1", features = ["arbitrary_precision"] }
tokio = { version = "1", features = ["io-util", "macros", "net", "rt-multi-thread", "sync", "time"] }
tracing = "0.1"
tracing-error = "0.2"
tracing-subscriber = { version = "0.3", features = ["env-filter"] }

[dev-dependencies]
nom = "7"
