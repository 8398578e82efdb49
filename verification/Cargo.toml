[package]
name = "scribe_engine"
version = "0.1.0"
edition = "2021"
publish = false

[dependencies]
serde = { version = "1", features = ["derive"] }
serde_json = "1"
thiserror = "2"
hound = "3"
cpal = "0.17"
whisper-rs = "0.14"
llama-cpp-2 = "*"
screencapturekit = "1"
