[package]
name = "mini_stark"
version = "0.1.0"
edition = "2021"
publish = false

[dependencies]
ark-ff = "0.4"
ark-poly = "0.4"
ark-serialize = { version = "0.4", features = ["derive"] }
sha2 = "0.10"
