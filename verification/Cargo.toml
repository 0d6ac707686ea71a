[package]
name = "dotfiles_installer"
version = "0.1.0"
edition = "2021"
publish = false

[dependencies]
chrono = "*"
nix = { version = "*", features = ["fs", "user"] }
clap = { version = "*", features = ["cargo"] }
log = "*"
simplelog = "*"
