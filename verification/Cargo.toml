[package]
name = "layout_oracle"
version = "0.1.0"
edition = "2021"
publish = false

[dependencies]
itertools = "0.6"
sdl2 = { version = "0.29", default-features = false, features = ["ttf", "image"] }
serde = "1"
serde_derive = "1"
serde_json = "1"
serde_yaml = "0.7"
clap = "2"
rand = "0.3"
time = "0.1"
winapi = "0.2"
user32-sys = "0.2"
kernel32-sys = "0.2"
gdi32-sys = "0.2"
