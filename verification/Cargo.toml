[package]
name = "diskharitasi"
version = "0.1.0"
edition = "2021"
publish = false

[dependencies]
chrono = "0.4"
eframe = { version = "*", default-features = false, features = ["default_fonts", "glow", "wayland", "x11", "persistence"] }
libc = "0.2"
serde = { version = "1", features = ["derive"] }
trash = "5"
