[package]
name = "clapboard"
version = "0.1.0"
edition = "2021"
publish = false

[dependencies]
indexmap = "2"
clap = { version = "4", features = ["derive"] }
tokio = { version = "1", features = ["full"] }
toml = "*"
wayland-clipboard-listener = "*"
wl-clipboard-rs = "*"
xdg = "*"
