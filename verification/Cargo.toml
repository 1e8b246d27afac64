[package]
name = "miio_core"
version = "0.1.0"
edition = "2021"
publish = false

[dependencies]
anyhow = "=1.0.104"
embedded-svc = "*"
esp-idf-hal = "*"
esp-idf-svc = "*"
esp32-nimble = "*"
heapless = "*"
log = "=0.4.34"
rand = "*"
serde = { version = "=1.0.229", features = ["derive"] }
serde_json = "=1.0.151"
