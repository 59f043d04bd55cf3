[package]
name = "simulation"
version = "0.1.0"
edition = "2021"
publish = false

[dependencies]
bevy_app = "*"
bevy_ecs = "*"
bevy_time = "*"
glam = "*"
rand = "0.9"
