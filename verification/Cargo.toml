[package]
name = "pane_watch"
version = "0.1.0"
edition = "2021"
publish = false

[dependencies]
regex = "1"
serde = { version = "1", features = ["derive"] }
tokio = { version = "1", features = ["macros", "process", "rt", "sync", "time"] }
tracing = "0.1"

[dev-dependencies]
toml = "0.8"
