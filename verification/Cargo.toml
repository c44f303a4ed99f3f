[package]
name = "mines_core"
version = "0.1.0"
edition = "2021"
publish = false

[dependencies]
rand = "=0.10.3"
godot = "=0.5.5"
log = "0.4"
