[package]
name = "chat_mio"
version = "0.1.0"
edition = "2021"
publish = false

[dependencies]
mio = { version = "*", features = ["os-poll", "net"] }
serde = { version = "*", features = ["derive"] }
serde_json = "*"
