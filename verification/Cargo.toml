[package]
name = "figdriver"
version = "0.3.1"
edition = "2021"
publish = false

[dependencies]
pico-args = "=0.5.0"
terminal_size = "=0.4.4"
unicode-width = "0.2"
zip = { version = "=2.6.1", default-features = false, features = ["deflate"] }
