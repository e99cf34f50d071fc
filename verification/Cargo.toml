[package]
name = "hybrid_mp4"
version = "0.1.0"
edition = "2021"
publish = false

[dependencies]
mp4 = "0.14"
chrono = "0.4"
serde = { version = "1", features = ["derive"] }
thiserror = "1"
