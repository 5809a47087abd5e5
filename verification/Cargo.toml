[package]
name = "underkb"
version = "0.1.0"
edition = "2021"
publish = false

[dependencies]
image = "0.25"
webp = "0.3"
getrandom = "0.3"
serde = { version = "1", features = ["derive"] }
serde_json = "1"
axum = "0.8"
tokio = { version = "1", features = ["full"] }
resuma = "*"
