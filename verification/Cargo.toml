[package]
name = "mkbubble"
version = "0.1.0"
edition = "2021"
publish = false

[dependencies]
indexmap = "2"
bpaf = "*"
image = { version = "*", default-features = false, features = ["png", "jpeg", "bmp"] }
opencv = { version = "*", default-features = false, features = ["imgproc"] }
