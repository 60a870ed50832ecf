[package]
name = "photo_organizer"
version = "0.1.0"
edition = "2021"
publish = false

[dependencies]
kamadak-exif = "*"
anyhow = "*"
walkdir = "*"
clap = { version = "*", features = ["derive"] }
