[package]
name = "gtaveh"
version = "0.1.0"
edition = "2021"
publish = false

[dependencies]
anyhow = "1"
axum = "0.7"
clap = { version = "4", features = ["derive"] }
flate2 = "1"
image = { version = "0.25", default-features = false, features = ["png"] }
rpf-archive = "*"
texture2ddecoder = "*"
tokio = { version = "1", features = ["rt-multi-thread", "net"] }
