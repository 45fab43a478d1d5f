[package]
name = "carnister"
version = "0.1.0"
edition = "2021"
publish = false

[dependencies]
chrono = "*"
colored = "*"
env_logger = "*"
indicatif = "*"
indicatif-log-bridge = "*"
log = "*"
qrcode-generator = "*"
reqwest = { version = "*", default-features = false, features = ["json"] }
rusttype = "*"
serde_json = "*"
text_io = "*"
text-svg = "*"
tokio = { version = "*", features = ["macros", "rt-multi-thread", "time", "fs"] }
