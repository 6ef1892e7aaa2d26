[package]
name = "pulse"
version = "0.1.0"
edition = "2021"
publish = false

[dependencies]
num-rational = "=0.4.2"
num-traits = "=0.2.19"
serde = { version = "=1.0.229", features = ["derive"] }
log = "=0.4.35"
libc = "=0.2.191"
