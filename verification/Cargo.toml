[package]
name = "rustdiff"
version = "0.1.0"
edition = "2021"
publish = false

[dependencies]
ansi-to-html = "*"
html-escape = "*"
clap = { version = "4", features = ["derive"] }
libc = "*"
