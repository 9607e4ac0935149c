[package]
name = "easy_store"
version = "0.4.0"
edition = "2021"
publish = false

[dependencies]
embedded-storage = "0.3"
esp-storage = { version = "*", features = ["esp32c3"] }
esp-println = { version = "*", features = ["esp32c3"] }
