[package]
name = "rhythmviz"
version = "0.1.0"
edition = "2021"
publish = false

[dependencies]
clap = { version = "*", features = ["derive"] }
cpal = "*"
rustfft = "*"
symphonia = { version = "*", features = ["mp3"] }
