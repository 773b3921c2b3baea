[package]
name = "vulkano_bindless"
version = "0.1.0"
edition = "2021"
publish = false

[dependencies]
crossbeam-queue = "=0.3.14"
rangemap = "=1.8.0"
syn = { version = "=2.0.119", features = ["full", "visit-mut"] }
vulkano = "=0.35.2"

[dev-dependencies]
rand = "=0.8.8"
