[package]
name = "chess_overlay"
version = "0.1.0"
edition = "2021"
publish = false

[dependencies]
shakmaty = "=0.27.3"
anyhow = "=1.0.104"
serde = { version = "=1.0.229", features = ["derive"] }
serde_json = "=1.0.154"
ndarray = "=0.16.1"
image = { version = "=0.25.10", default-features = false }
ort = { version = "=2.0.0-rc.10", default-features = false, features = ["std", "ndarray", "load-dynamic"] }
egui = "=0.27.2"
xcap = { version = "=0.9.8", default-features = false }
