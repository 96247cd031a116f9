[package]
name = "horizoncast"
version = "0.1.0"
edition = "2021"
publish = false

[dependencies]
anyhow = "1"
axum = "=0.8.9"
block2 = "0.6"
clap = { version = "4", features = ["derive"] }
mdns-sd = "=0.21.7"
objc2-core-foundation = "0.3"
objc2-core-media = "0.3"
objc2-core-video = "0.3"
objc2-video-toolbox = "0.3"
open = "5"
plist = "=1.10.3"
quick-xml = "=0.41.0"
reqwest = { version = "=0.12.28", default-features = false, features = ["stream"] }
slint = { version = "=1.18.1", default-features = false, features = ["compat-1-2", "std"] }
thiserror = "2"
tokio = { version = "1", features = ["full"] }
tokio-stream = { version = "0.1", features = ["sync"] }
tokio-util = { version = "0.7", features = ["io"] }
tracing = "0.1"
tracing-subscriber = { version = "0.3", features = ["env-filter"] }
windows = { version = "=0.62.2", features = ["Win32_Media_MediaFoundation", "Win32_System_Com", "Win32_System_Variant"] }
