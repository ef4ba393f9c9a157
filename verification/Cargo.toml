[package]
name = "binfmt-dispatcher"
version = "0.1.0"
edition = "2021"
publish = false

[dependencies]
anyhow = "1"
config = { version = "0.14", default-features = false, features = ["toml"] }
libc = "0.2"
log = "0.4"
serde = { version = "1", features = ["derive"] }
xdg = "2"
zenity-dialog = "*"
