[package]
name = "ficsit_companion_rs"
version = "0.1.0"
edition = "2021"
publish = false

[dependencies]
num-rational = { version = "=0.4.2", default-features = false, features = ["std"] }
num-traits = "=0.2.19"
serde = { version = "=1.0.229", features = ["derive"] }
serde_json = "=1.0.154"
log = "=0.4.35"
egui = { version = "=0.36.2", default-features = false }
egui-snarl = { version = "=0.12.0", default-features = false }
