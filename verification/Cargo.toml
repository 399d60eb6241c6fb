[package]
name = "pose_obc_retrieval"
version = "0.1.0"
edition = "2021"
publish = false

[dependencies]
burn = { version = "=0.21.0", default-features = false }
burn-autodiff = { version = "=0.21.0", default-features = false, features = ["std"] }
burn-core = { version = "=0.21.0", default-features = false, features = ["std"] }
burn-flex = { version = "=0.21.0", default-features = false, features = ["std"] }
clap = { version = "=4.6.7", features = ["derive"] }
image = { version = "=0.25.10", default-features = false, features = ["png", "jpeg", "webp"] }
rand = "=0.9.5"
serde = { version = "1.0", features = ["derive"] }
simd-json = "=0.17.3"
