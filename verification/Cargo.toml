[package]
name = "psychedelic"
version = "0.1.0"
edition = "2021"
publish = false

[dependencies]
rand = "*"
png = "*"
objc2 = "*"
objc2-foundation = "*"
objc2-metal = "*"
objc2-quartz-core = "*"
objc2-app-kit = "*"
winit = "*"
