[package]
name = "apiary"
version = "0.1.0"
edition = "2021"
publish = false

[dependencies]
shell-words = "1"
clap = { version = "4", features = ["derive"] }
libc = "0.2"
xdg = "*"
serde = { version = "1", features = ["derive"] }
serde_json = "1"
libdisplay-info = "*"
anyhow = "1"
nix = { version = "*", features = ["signal"] }
signal-hook = "*"
rustix = { version = "*", features = ["fs"] }
wayland-client = "*"
wayland-protocols-misc = { version = "*", features = ["client"] }
walkdir = "2"
dirs = "*"
procfs = "*"
