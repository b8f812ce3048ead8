[package]
name = "tallystick"
version = "0.1.0"
edition = "2021"
publish = false

[dependencies]
hashbrown = "0.14"
petgraph = "0.6"
num-traits = "0.2"
failure = "0.1"
