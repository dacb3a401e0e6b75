[package]
name = "quill"
version = "0.1.0"
edition = "2021"
publish = false

[dependencies]
clap = "2"
console = "0.15"
dirs = "5"
serde = { version = "1", features = ["derive"] }
serde_json = "1"
tokio = { version = "1", features = ["process", "macros", "rt-multi-thread"] }
toml = "0.5"
tracing = "0.1"
tracing-subscriber = "0.3"
