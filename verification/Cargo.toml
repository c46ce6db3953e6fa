[package]
name = "sx_protocol"
version = "0.1.0"
edition = "2021"
publish = false

[dependencies]
sha2 = "0.10"
base64 = "0.22"
hex = "0.4"
uuid = { version = "1", features = ["v4"] }
chrono = "0.4"
serde_json = "1"
clap = { version = "4", features = ["derive"] }
rand = "0.8"
thiserror = "1"
libc = "0.2"
