[package]
name = "lockscreen"
version = "0.1.0"
edition = "2021"
publish = false

[dependencies]
clap = { version = "4.6.1", features = ["derive"] }
xcap = "0.9.4"
image = { version = "0.25", default-features = false }
