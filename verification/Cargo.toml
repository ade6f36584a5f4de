[package]
name = "live_wait"
version = "0.1.0"
edition = "2021"
publish = false

[dependencies]
chrono = { version = "0.4", features = ["serde"] }
serde = { version = "1", features = ["derive"] }
serde_json = "1"
tokio = { version = "1", features = ["sync", "macros", "rt-multi-thread"] }
futures-util = "0.3"
async-stream = "0.3"
pin-project-lite = "0.2"
rocket = { version = "0.5", features = ["json"] }
reqwest = { version = "0.12", default-features = false }
sse-client = "1"
termion = "1.5"
tui = { version = "0.19", default-features = false, features = ["termion"] }
