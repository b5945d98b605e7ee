[package]
name = "rtio_bridge"
version = "0.1.0"
edition = "2021"
publish = false

[dependencies]
anyhow = "*"
clap = { version = "*", features = ["derive"] }
colog = "*"
log = "*"
tokio = { version = "*", features = ["net", "rt-multi-thread", "macros"] }
zmq = "*"
