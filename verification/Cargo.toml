[package]
name = "mdcat"
version = "0.1.0"
edition = "2021"
publish = false

[dependencies]
anyhow = "1"
base64 = "0.22"
clap = { version = "4", features = ["derive", "env"] }
comrak = { version = "*", default-features = false }
crossterm = "0.28"
image = { version = "0.25", default-features = false, features = ["png"] }
libc = "0.2"
minus = { version = "5", features = ["static_output"] }
resvg = "*"
syntect = { version = "5", default-features = false, features = ["default-fancy"] }
tempfile = "3"
terminal_size = "0.4"
tiny-skia = "*"
ureq = "2"
