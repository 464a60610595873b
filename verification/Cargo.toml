[package]
name = "embedded_template"
version = "0.1.0"
edition = "2021"
publish = false

[dependencies]
salty = "=0.3.0"
object = { version = "=0.36.7", default-features = false, features = ["read_core", "elf", "std", "unaligned"] }
anyhow = "=1.0.104"
xshell = "=0.2.7"
serde_json = "=1.0.154"
getrandom = "=0.3.4"
embassy-boot = "=0.7.0"
embassy-sync = "=0.8.0"
embedded-storage = "=0.3.2"
embedded-storage-async = "=0.4.2"
sequential-storage = "=8.0.2"
embedded-hal-async = "=1.0.0"
stm32-metapac = { version = "=21.0.0", default-features = false, features = ["metadata", "stm32f411ce"] }
