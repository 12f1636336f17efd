[package]
name = "wasamix"
version = "0.3.1"
edition = "2021"
publish = false

[dependencies]
anyhow = "1"
serde = { version = "1", features = ["derive"] }
serde_json = "1"
tracing = "0.1"
tracing-subscriber = "0.3"
tray-icon = "0.22"
wasapi = "0.16"
winit = "0.30"
