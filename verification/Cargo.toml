[package]
name = "gui"
version = "0.1.0"
edition = "2021"
publish = false

[dependencies]
minifb = "=0.29.0"
cairo-rs = "=0.21.5"
piet = "=0.8.0"
piet-cairo = "=0.8.0"
