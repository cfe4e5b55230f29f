[package]
name = "aeronet_transport"
version = "0.1.0"
edition = "2021"
publish = false

[dependencies]
octs = "*"
bevy_platform = "0.17"
bevy_ecs = "0.17"
bevy_time = "0.17"
