[package]
name = "splitter"
version = "0.1.6"
edition = "2021"
publish = false

[dependencies]
anyhow = "1"
bincode = "=1.3.3"
cpal = "0.15"
crossbeam-channel = "=0.5.17"
dioxus = { version = "=0.6.3", default-features = false, features = ["macro", "html", "signals", "hooks", "launch", "document"] }
dirs = "=6.0.0"
ebur128 = "=0.1.11"
flacenc = { version = "=0.5.1", default-features = false }
image = { version = "=0.25.10", default-features = false, features = ["png"] }
mp3lame-encoder = "=0.2.5"
rfd = { version = "0.15", default-features = false, features = ["gtk3"] }
serde = { version = "1", features = ["derive"] }
serde_json = "1"
sha2 = "=0.10.9"
symphonia = { version = "=0.5.5", default-features = false, features = ["mp3", "wav", "pcm", "aac", "isomp4", "flac"] }
tokio = { version = "1", features = ["time", "rt"] }
ureq = "=3.5.1"
zip = { version = "=7.4.0", default-features = false, features = ["deflate"] }
