[package]
name = "neovim-gtk-ui"
version = "0.1.0"
edition = "2021"
publish = false

[dependencies]
serde = { version = "=1.0.229", features = ["derive"] }
toml = "=1.1.8"
log = "=0.4.35"
nvim-rs = { version = "=0.9.2", features = ["use_tokio"] }
async-trait = "=0.1.92"
once_cell = "=1.21.4"
glib = "=0.22.10"
gio = "=0.22.10"
pango = "=0.22.9"
tokio = { version = "=1.54.1", features = ["process"] }
