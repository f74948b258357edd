[package]
name = "particle_engine"
version = "0.1.0"
edition = "2021"
publish = false

[dependencies]
gl = "0.14"
glutin = "0.19"
rand = "0.6"
