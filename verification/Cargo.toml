[package]
name = "propagation"
version = "0.1.0"
edition = "2021"
publish = false

[dependencies]
cpal = "=0.13.5"
ringbuf = "=0.4.8"
serde = { version = "1", features = ["derive"] }
serde_json = "1"
chrono = "0.4"
sysinfo = { version = "=0.29.11", default-features = false }
os_info = { version = "3", default-features = false }
sys-info = "0.9"
