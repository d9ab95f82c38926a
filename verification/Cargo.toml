[package]
name = "autotune_rs"
version = "0.1.0"
edition = "2021"
publish = false

[dependencies]
atomic_float = "1"
cpal = "*"
iced = { version = "*", default-features = false }
num = "0.4"
ringbuf = "0.4"
tokio = { version = "1", features = ["time"] }
tracing = "0.1"
tracing-subscriber = { version = "0.3", features = ["env-filter"] }
