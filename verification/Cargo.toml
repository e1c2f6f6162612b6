[package]
name = "diskann"
version = "0.1.0"
edition = "2021"
publish = false

[dependencies]
anyhow = "1"
bytemuck = "1"
clap = { version = "4", features = ["derive"] }
hashbrown = "0.16"
tracing = "0.1"
