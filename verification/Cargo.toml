[package]
name = "veracage"
version = "0.1.0"
edition = "2021"
publish = false

[dependencies]
sha2 = "=0.10.9"
libc = "=0.2.191"
png = "=0.18.1"
indexmap = { version = "=2.14.2", features = ["serde"] }
zeroize = "=1.9.1"
serde = { version = "1", features = ["derive"] }
serde_json = "=1.0.154"
toml = "0.8"
eframe = { version = "0.29", default-features = false, features = ["glow", "wayland", "x11", "default_fonts"] }
egui = "0.29"
egui_glow = { version = "0.29", default-features = false }
glow = "0.14"
arboard = { version = "3", default-features = false }
rfd = { version = "0.15", default-features = false, features = ["xdg-portal", "tokio"] }
raw-window-handle = "0.6"
smithay = { version = "=0.7.0", default-features = false, features = ["backend_winit", "desktop", "renderer_gl", "wayland_frontend"] }
wayland-client = "0.31"
wayland-protocols-wlr = { version = "0.3", features = ["client"] }
tracing = "0.1"
tracing-subscriber = { version = "0.3", default-features = false, features = ["env-filter", "fmt"] }
