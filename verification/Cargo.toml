[package]
name = "riftpipe"
version = "0.1.0"
edition = "2021"
publish = false

[dependencies]
async-trait = "*"
blake3 = "*"
bytes = "*"
data-encoding = "*"
diamond-types = "*"
futures-util = "*"
notify = "*"
postcard = { version = "*", features = ["use-std"] }
rand = "0.9"
rusqlite = { version = "*", features = ["bundled"] }
serde = { version = "*", features = ["derive"] }
serde_json = "*"
similar = "2"
tiny_http = "*"
tokio = { version = "*", features = ["full"] }
tokio-tungstenite = "*"
toml = "0.8"
webrtc = "0.17"
