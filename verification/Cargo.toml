[package]
name = "launcher_core"
version = "0.1.0"
edition = "2021"
publish = false

[dependencies]
anyhow = "=1.0.104"
arboard = { version = "=3.7.0", default-features = false }
chrono = { version = "=0.4.45", features = ["serde"] }
directories = "=5.0.1"
eframe = { version = "=0.31.1", default-features = false, features = ["glow"] }
egui = { version = "=0.31.1", default-features = false }
env_logger = "=0.11.11"
evdev = "=0.12.2"
libc = "=0.2.191"
log = "=0.4.34"
meval = "=0.2.0"
notify = "=6.1.1"
quick-xml = "=0.42.0"
serde = { version = "=1.0.229", features = ["derive"] }
serde_json = "=1.0.154"
