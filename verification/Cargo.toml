[package]
name = "cosmic-ext-applet-scratchpad"
version = "0.1.0"
edition = "2021"
publish = false

[dependencies]
serde = { version = "1", features = ["derive"] }
tokio = { version = "1", features = ["time", "rt"] }
tracing = "0.1"
tracing-subscriber = "0.3"
