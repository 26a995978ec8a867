[package]
name = "corrosium"
version = "0.1.0"
edition = "2021"
publish = false

[dependencies]
elf = { version = "0.7", default-features = false }
uefi = "*"
log = "0.4"
