[package]
name = "nir"
version = "0.1.0"
edition = "2021"
publish = false

[dependencies]
sha2 = "0.10"
serde_json = "1"
serde = { version = "1", features = ["derive"] }
unicode-segmentation = "1"
anyhow = "1"
thiserror = "*"
