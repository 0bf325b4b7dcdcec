[package]
name = "bombicat"
version = "0.1.0"
edition = "2021"
publish = false

[dependencies]
rand = "0.8"
rayon = "1"
serde = { version = "1", features = ["derive"] }
serde_json = "1"
dirs = "5"
rusqlite = "0.31"
egui = "0.31"
image = { version = "0.25", default-features = false, features = ["png"] }
resvg = { version = "0.36", default-features = false }
