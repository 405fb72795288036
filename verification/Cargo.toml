[package]
name = "roads_from_nd"
version = "0.1.0"
edition = "2021"
publish = false

[dependencies]
docopt = "=1.1.1"
osm4routing = "=0.2.0"
pdf = "=0.5.2"
