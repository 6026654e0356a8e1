[package]
name = "connect_pairs"
version = "0.1.0"
edition = "2021"
publish = false

[dependencies]
egui = "=0.31.1"
egui-macroquad = "=0.17.3"
macroquad = "=0.4.16"
ron = "=0.12.2"
serde = { version = "=1.0.229", features = ["derive"] }

[dev-dependencies]
parry2d = "=0.31.1"
