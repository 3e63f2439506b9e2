[package]
name = "inbox_storage"
version = "0.1.0"
edition = "2021"
publish = false

[dependencies]
chrono = "=0.4.45"
serde = { version = "=1.0.229", features = ["derive"] }
tauri = { version = "2", default-features = false, features = ["wry", "tray-icon", "image-png"] }
