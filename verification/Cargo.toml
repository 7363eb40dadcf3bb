[package]
name = "kill_desktop"
version = "0.1.0"
edition = "2021"
publish = false

[dependencies]
regex = "*"
nix = { version = "*", features = ["signal", "term"] }
unicode-width = "*"
xcb = "*"
toml = "*"
serde = { version = "*", features = ["derive"] }
dirs = "*"
terminal_size = "*"
anyhow = "*"
