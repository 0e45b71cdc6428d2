[package]
name = "niri_launcher"
version = "0.1.0"
edition = "2021"
publish = false

[dependencies]
freedesktop-icons = "*"
linicon = "*"
niri-ipc = "*"
notify-rust = "*"
guido = "*"
