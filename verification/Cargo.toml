[package]
name = "tetris_gui"
version = "0.1.0"
edition = "2021"
publish = false

[dependencies]
rand = "0.8"
egui = { version = "0.20", default-features = false }
