[package]
name = "spgemm"
version = "0.1.0"
edition = "2021"
publish = false

[dependencies]
rayon = "1"
wgpu = "24"
bytemuck = { version = "1", features = ["derive"] }
futures-intrusive = "0.5"
pollster = "0.3"
tokio = { version = "1", features = ["rt-multi-thread", "macros"] }
