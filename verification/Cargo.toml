[package]
name = "azurepath"
version = "0.1.0"
edition = "2021"
publish = false

[dependencies]
regex = "=1.13.1"
serde = { version = "=1.0.229", features = ["derive"] }
serde_json = "=1.0.154"
rand = "=0.8.8"
image = { version = "=0.25.10", default-features = false, features = ["jpeg"] }
chrono = { version = "0.4", default-features = false, features = ["clock", "std"] }
des = "0.8"
cipher = "0.4"
base64 = "0.22"
uuid = { version = "1", features = ["v4"] }
