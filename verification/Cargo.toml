[package]
name = "rico32"
version = "0.1.0"
edition = "2021"
publish = false

[dependencies]
base64 = "=0.21.7"
flate2 = "=1.1.10"
bincode = { version = "=2.0.1", features = ["derive"] }
regex = "=1.13.1"
walkdir = "=2.5.0"
notify = "=6.1.1"
notify-debouncer-mini = "=0.4.1"
