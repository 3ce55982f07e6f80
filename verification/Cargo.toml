[package]
name = "shutton"
version = "0.4.0"
edition = "2021"
publish = false

[dependencies]
gtk4 = { version = "*", features = ["v4_12"] }
libc = "0.2"
