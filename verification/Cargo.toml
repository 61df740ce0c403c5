[package]
name = "cloud_raster"
version = "0.1.0"
edition = "2021"
publish = false

[dependencies]
clap = { version = "4", features = ["derive"] }
env_logger = "*"
gdal = "*"
las = "*"
log = "0.4"
spade = "2"
thiserror = "*"
