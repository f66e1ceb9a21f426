[package]
name = "videotrim"
version = "0.1.0"
edition = "2021"
publish = false

[dependencies]
clap = { version = "4", features = ["derive"] }
dirs = "*"
hound = "3"
indicatif = "*"
ollama-rs = "*"
reqwest = "*"
schemars = "*"
serde = { version = "1", features = ["derive"] }
serde_json = "1"
tokio = { version = "1", features = ["macros", "rt-multi-thread"] }
whisper-rs = "*"
