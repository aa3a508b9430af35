[package]
name = "eggplant"
version = "0.1.0"
edition = "2021"
publish = false

[dependencies]
cgmath = "=0.18.0"
gfx = "=0.18.3"
gfx_device_gl = "=0.16.2"
gfx_gl = "=0.6.1"
gfx_macros = "=0.2.1"
gl = "=0.14.0"
glfw = { version = "=0.55.0", default-features = false }
