[package]
name = "alass_stream"
version = "0.1.0"
edition = "2021"
publish = false

[dependencies]
alass-core = "*"
subparse = "*"
webrtc-vad = "*"
uuid = { version = "1", features = ["v4"] }
tokio = { version = "1", features = ["macros", "rt-multi-thread", "sync"] }
tokio-stream = { version = "0.1", features = ["sync"] }
tonic = "0.12"
prost = "0.13"
