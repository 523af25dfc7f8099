[package]
name = "tnote"
version = "0.3.0"
edition = "2021"
publish = false

[dependencies]
clap = { version = "4", features = ["derive"] }
clap_complete = "4"
libc = "0.2"
owo-colors = { version = "4", features = ["supports-colors"] }
portable-pty = "0.8"
ratatui = "0.29"
vt100 = "0.15"
