[package]
name = "voxel_server"
version = "0.1.0"
edition = "2021"
publish = false

[dependencies]
anyhow = "1"
flate2 = "1"
glam = "*"
noise = "0.9"
quinn = "0.11"
rcgen = "0.14"
tokio = { version = "1", features = ["full"] }

[dev-dependencies]
postcard = { version = "1", features = ["alloc"] }
