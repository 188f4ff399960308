[package]
name = "osm_router"
version = "0.1.0"
edition = "2021"
publish = false

[dependencies]
geoutils = "*"
priority-queue = "*"
osmpbfreader = "*"
