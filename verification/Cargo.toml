[package]
name = "skync"
version = "0.1.0"
edition = "2021"
publish = false

[dependencies]
anyhow = "=1.0.104"
console = "=0.16.6"
rmcp = { version = "=3.5.1", features = ["server", "transport-io"] }
serde = { version = "=1.0.229", features = ["derive"] }
tokio = { version = "*", features = ["rt-multi-thread", "macros"] }
