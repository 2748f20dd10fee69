[package]
name = "selkies"
version = "0.1.0"
edition = "2021"
publish = false

[dependencies]
anyhow = "1"
base64 = "0.22"
futures-util = "0.3"
gstreamer = "0.23"
gstreamer-sdp = "0.23"
gstreamer-video = "0.23"
gstreamer-webrtc = "0.23"
http = "1"
libc = "0.2"
regex = "1"
serde = { version = "1", features = ["derive"] }
serde_json = "1"
thiserror = "1"
tokio = { version = "1", features = ["macros", "net", "rt-multi-thread", "sync", "time"] }
tokio-tungstenite = "0.24"
tracing = "0.1"
tracing-subscriber = "0.3"
