[package]
name = "softraster"
version = "0.1.0"
edition = "2021"
publish = false

[dependencies]
obj-rs = "0.7"
softbuffer = "0.4"
winit = "0.30"
