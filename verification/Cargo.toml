[package]
name = "rust_lander"
version = "0.1.0"
edition = "2021"
publish = false

[dependencies]
cgmath = "0.17"
rand = "0.7"
sdl2 = "0.34"
emscripten_main_loop = "0.1"
lazy_static = "1.4"
