[package]
name = "background_portal"
version = "0.1.0"
edition = "2021"
publish = false

[dependencies]
anyhow = "=1.0.104"
clap = { version = "=4.6.7", features = ["derive"] }
log = "=0.4.34"
log4rs = "=1.4.0"
tokio = { version = "=1.53.2", features = ["fs", "macros", "process", "rt", "rt-multi-thread", "sync"] }
xdg = "=3.0.0"
zbus = "=5.19.0"
