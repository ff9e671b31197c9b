[package]
name = "raster_skeleton"
version = "0.1.0"
edition = "2021"
publish = false

[dependencies]
env_logger = "*"
gdal = "*"
gdal-sys = "*"
log = "*"
