[package]
name = "plagiarism_service"
version = "0.1.0"
edition = "2021"
publish = false

[dependencies]
unicode-segmentation = "*"
rayon = "*"
serde = { version = "*", features = ["derive"] }
actix-web = "*"
env_logger = "*"
log = "*"
