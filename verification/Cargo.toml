[package]
name = "rusty_gematria"
version = "0.1.0"
edition = "2021"
publish = false

[dependencies]
rayon = "1"
eframe = { version = "0.29", default-features = false, features = ["glow", "x11", "default_fonts"] }
