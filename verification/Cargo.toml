[package]
name = "rcore"
version = "0.1.0"
edition = "2021"
publish = false

[dependencies]
xmas-elf = "0.7"
virtio-drivers = "0.2"
lazy_static = "1.4"
log = "0.4"
