[package]
name = "lart"
version = "0.1.0"
edition = "2021"
publish = false

[dependencies]
anyhow = "1"
cxx = "1"
delaunator = "1"
rand = "0.8"
rand_xoshiro = "0.6"
voronoice = "0.2"
