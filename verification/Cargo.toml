[package]
name = "scanline"
version = "0.1.0"
edition = "2021"
publish = false

[dependencies]
clap = { version = "4", features = ["derive"] }
image = { version = "*", default-features = false, features = ["png"] }
usvg = { version = "*", default-features = false }
vello_cpu = "*"
