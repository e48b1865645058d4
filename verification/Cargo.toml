[package]
name = "simple_graphics_controller"
version = "0.1.0"
edition = "2021"
publish = false

[dependencies]
anyhow = "1"
dashmap = "6"
drm = "*"
evdev = "0.12"
libc = "0.2"
linfb = "*"
nix = { version = "*", features = ["socket", "fs", "user"] }
rmp-serde = "1"
sendfd = { version = "0.4", features = ["tokio"] }
serde = { version = "1", features = ["derive"] }
thiserror = "2"
tokio = { version = "1", features = ["io-util", "macros", "net", "rt-multi-thread", "sync", "time"] }
tracing = "0.1"
tracing-subscriber = { version = "0.3", features = ["env-filter"] }
