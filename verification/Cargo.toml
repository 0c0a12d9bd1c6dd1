[package]
name = "rustbox"
version = "0.1.0"
edition = "2021"
publish = false

[dependencies]
rand = "0.8"
colored = "2"
sdl2 = "0.37"
tokio = { version = "1", features = ["full"] }
