[package]
name = "gis_view"
version = "0.1.0"
edition = "2021"
publish = false

[dependencies]
anyhow = "1"
base64 = "0.22"
clap = { version = "4", features = ["derive"] }
dialoguer = "*"
gdal = "*"
image = { version = "*", default-features = false }
viuer = "*"
