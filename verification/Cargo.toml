[package]
name = "screen_stream"
version = "0.1.0"
edition = "2021"
publish = false

[dependencies]
bytes = "1"
captrs = "*"
clap = { version = "4", features = ["derive"] }
ggez = { version = "*", default-features = false }
tokio = { version = "1", features = ["rt", "rt-multi-thread", "time"] }
turbojpeg = "*"
