[package]
name = "rpc_codec"
version = "0.1.0"
edition = "2021"
publish = false

[dependencies]
bevy_ecs = "*"
serde = { version = "1", features = ["derive"] }
rmp-serde = "1"
