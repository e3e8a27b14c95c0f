[package]
name = "console_core"
version = "0.1.0"
edition = "2021"
publish = false

[dependencies]
ansi-parser = "*"
strip-ansi-escapes = "*"
shlex = "*"
clap = { version = "*", features = ["derive"] }

[dev-dependencies]
color-print = "*"
