[package]
name = "ao_baker"
version = "0.1.0"
edition = "2021"

[dependencies]
cgmath = "0.17"
rand = "0.7"
wavefront_obj = "*"
glium = "0.26"
rusttype = "0.8"
