[package]
name = "grid_map"
version = "0.1.0"
edition = "2021"
publish = false

[dependencies]
image = { version = "*", default-features = false, features = ["pnm"] }
nalgebra = "*"
rrt = "*"
rand = "*"
serde = { version = "*", features = ["derive"] }
serde_yaml = "*"
thiserror = "*"
