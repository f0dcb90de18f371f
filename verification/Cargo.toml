[package]
name = "packrat"
version = "0.1.0"
edition = "2021"
publish = false

[dependencies]
base64 = "=0.23.1"
zip = { version = "=8.6.0", default-features = false, features = ["deflate"] }
image = { version = "=0.25.10", default-features = false, features = ["jpeg", "png"] }
tokio = { version = "=1.53.2", features = ["rt-multi-thread", "macros", "sync", "time"] }
async-openai = { version = "=0.42.1", features = ["chat-completion"] }
serde = { version = "=1.0.229", features = ["derive"] }
serde_json = "=1.0.151"
fastembed = { version = "=7.1.0", default-features = false, features = ["ort-download-binaries"] }
