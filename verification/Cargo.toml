[package]
name = "abootimg_oxide"
version = "0.1.0"
edition = "2021"
publish = false

[dependencies]
sha1 = "0.10"
sha2 = "0.10"
shlex = "1.3"
hex_fmt = "0.3"
clap = { version = "4", features = ["derive"] }
