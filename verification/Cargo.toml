[package]
name = "active_app_volume"
version = "0.1.0"
edition = "2021"
publish = false

[dependencies]
anyhow = "1"
base64 = "0.22"
log = "0.4"
openaction = "*"
pipewire = "0.9"
serde = { version = "1", features = ["derive"] }
serde_json = "1"
simplelog = "0.12"
tokio = { version = "1", features = ["macros", "rt-multi-thread", "sync"] }
zbus = "5"
