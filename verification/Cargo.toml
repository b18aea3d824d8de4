[package]
name = "subsetter"
version = "0.2.0"
edition = "2021"
publish = false

[dependencies]
skrifa = "*"
kurbo = "*"
write-fonts = "*"
