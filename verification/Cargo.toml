[package]
name = "learn_words"
version = "0.1.0"
edition = "2021"
publish = false

[dependencies]
chrono = "=0.4.45"
color-backtrace = "=0.5.1"
egui = "=0.13.1"
egui-macroquad = "=0.5.1"
lazy_static = "=1.5.1"
macroquad = "=0.3.10"
nanoserde = "=0.1.37"
quad-rand = "=0.2.3"
ron = "=0.6.6"
serde = { version = "=1.0.229", features = ["derive"] }
srtparse = "=0.2.0"
strsim = "=0.10.0"
web-sys = { version = "=0.3.106", features = ["Storage", "Window"] }
