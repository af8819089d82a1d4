[package]
name = "gat"
version = "0.3.0"
edition = "2021"
publish = false

[dependencies]
base64 = "0.22"
flate2 = "1"
hayro = "*"
image = { version = "0.25", default-features = false, features = ["png", "jpeg"] }
lexopt = "0.3"
pdfium-render = { version = "*", default-features = false, features = ["pdfium_latest", "image_latest", "thread_safe"] }
pulldown-cmark = { version = "0.13", default-features = false }
resvg = "*"
rustix = { version = "1", features = ["event", "stdio", "termios"] }
syntect = { version = "5", default-features = false, features = ["default-fancy"] }
unicode-width = "0.2"
