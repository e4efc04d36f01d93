[package]
name = "acdx"
version = "0.1.0"
edition = "2021"
publish = false

[dependencies]
petgraph = "*"
thiserror = "*"
owo-colors = "*"
facet = "*"
figue = "*"
acdc-parser = "*"
