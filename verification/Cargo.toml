[package]
name = "game_engine"
version = "0.1.0"
edition = "2021"
publish = false

[dependencies]
bevy_ecs = "0.16"
rand = "0.8"
