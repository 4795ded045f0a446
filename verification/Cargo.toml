[package]
name = "flip-link"
version = "0.1.7"
edition = "2021"
publish = false

[dependencies]
env_logger = "=0.10.2"
getrandom = "=0.2.17"
log = "=0.4.35"
object = { version = "=0.32.2", default-features = false, features = ["read_core", "elf", "unaligned", "std"] }
