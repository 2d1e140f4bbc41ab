[package]
name = "gol"
version = "0.1.0"
edition = "2021"
publish = false

[dependencies]
rand = "0.8"
clap = { version = "4", features = ["derive"] }
strum = "0.24"
strum_macros = "0.24"
vulkano = "0.32"
vulkano-shaders = "0.32"
bytemuck = { version = "1", features = ["derive"] }
