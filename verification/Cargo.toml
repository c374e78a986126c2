[package]
name = "fontdue_sdl2"
version = "0.1.0"
edition = "2021"
publish = false

[dependencies]
fontdue = "*"
sdl2 = "*"
log = "*"
