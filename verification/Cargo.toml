[package]
name = "yamux_low_mem"
version = "0.1.0"
edition = "2021"
publish = false

[dependencies]
futures = "0.3"
log = "0.4"
thiserror = "2"
tokio = { version = "1", features = ["time"] }
