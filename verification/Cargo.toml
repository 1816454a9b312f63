[package]
name = "mixfix"
version = "0.1.0"
edition = "2021"
publish = false

[dependencies]
either = "=1.19.0"
fixedbitset = "=0.5.7"
itertools = "=0.15.0"
petgraph = "=0.8.3"
