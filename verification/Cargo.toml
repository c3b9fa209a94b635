[package]
name = "super_tictactoe"
version = "0.1.0"
edition = "2021"
publish = false

[dependencies]
borsh = { version = "1", features = ["derive"] }
eframe = { version = "0.23", default-features = false, features = ["default_fonts", "glow"] }
egui = "0.23"
egui_extras = "0.23"
