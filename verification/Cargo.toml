[package]
name = "keyboard_drums"
version = "0.1.0"
edition = "2021"
publish = false

[dependencies]
anyhow = "1"
arc-swap = "1"
clap = { version = "4", features = ["derive"] }
cpal = "*"
crossbeam = "0.8"
env_logger = "*"
evdev = "*"
hound = "3"
log = "0.4"
ringbuf = "0.4"
serde = { version = "1", features = ["derive"] }
signal-hook = "*"
toml = "*"
