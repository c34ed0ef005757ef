[package]
name = "forge_core"
version = "0.1.0"
edition = "2021"

[dependencies]
rand = "0.8"
rayon = "1"
sysinfo = "0.30"
