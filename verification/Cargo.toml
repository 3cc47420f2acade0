[package]
name = "keyberon"
version = "0.2.0"
edition = "2021"
publish = false

[dependencies]
arraydeque = { version = "0.5", default-features = false }
heapless = "0.8"
