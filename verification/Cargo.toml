[package]
name = "stroke"
version = "0.1.0"
edition = "2021"
publish = false

[dependencies]
percent-encoding = "2"
serde = { version = "1", features = ["derive"] }
serde_json = "1"
wasm-bindgen = "0.2"
js-sys = "0.3"
web-sys = { version = "0.3", features = ["Window", "Storage", "History", "Performance", "SpeechSynthesis", "SpeechSynthesisUtterance", "SpeechSynthesisVoice"] }
