[package]
name = "rapids"
version = "0.1.0"
edition = "2021"
publish = false

[dependencies]
nanoid = "*"
axum = { version = "*", features = ["ws"] }
tokio = { version = "*", features = ["rt-multi-thread", "macros", "net", "time"] }
kanal = "*"
anyhow = "*"

[dev-dependencies]
serde_json = "*"
rmp-serde = "*"
