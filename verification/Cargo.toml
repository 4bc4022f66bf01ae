[package]
name = "clip_history"
version = "0.1.0"
edition = "2021"
publish = false

[dependencies]
arboard = { version = "=3.4.1", default-features = false }
daemonize = "=0.5.0"
