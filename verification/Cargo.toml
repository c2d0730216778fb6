[package]
name = "file2qr"
version = "0.4.0"
edition = "2021"
publish = false

[dependencies]
base64 = "0.22"
hex = "0.4"
percent-encoding = "2"
sha2 = "0.10"
xz2 = "0.1"
qrcodegen = "1.8"
image = { version = "0.25", default-features = false }
egui = { version = "*", default-features = false }
rfd = "0.15"
env_logger = "0.11"
log = "0.4"
