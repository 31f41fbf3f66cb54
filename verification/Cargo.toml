[package]
name = "dif"
version = "0.1.0"
edition = "2021"
publish = false

[dependencies]
similar = "*"
unicode-width = "*"
unicode-segmentation = "*"
serde = { version = "1", features = ["derive"] }
serde_json = "1"
anyhow = "1"
directories = "*"
alacritty_terminal = "*"
portable-pty = "*"
parking_lot = "*"
syntect = { version = "5", default-features = false, features = ["default-fancy"] }
