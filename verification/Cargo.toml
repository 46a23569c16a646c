[package]
name = "gemini_assistant"
version = "0.1.0"
edition = "2021"
publish = false

[dependencies]
anyhow = "1"
clap = { version = "4", features = ["derive"] }
cpal = "*"
gemini-genai-rs = "0.7"
hound = "3"
image = { version = "0.25", default-features = false, features = ["png", "jpeg"] }
libc = "0.2"
serde = { version = "1", features = ["derive"] }
serde_json = "1"
tempfile = "3"
tokio = { version = "1", features = ["rt", "macros", "signal", "time", "sync"] }
