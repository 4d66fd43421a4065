[package]
name = "tailscale_tray"
version = "0.1.0"
edition = "2021"
publish = false

[dependencies]
serde = { version = "=1.0.229", features = ["derive"] }
serde_json = "=1.0.154"
tray-icon = "=0.26.1"
muda = "=0.21.2"
gtk = "=0.18.2"
glib = "=0.18.5"
image = { version = "=0.25.10", default-features = false, features = ["png"] }
cli-clipboard = "=0.4.0"
