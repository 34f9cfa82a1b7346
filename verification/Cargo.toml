[package]
name = "raest"
version = "0.1.0"
edition = "2021"
publish = false

[dependencies]
crossbeam = "=0.7.3"
image = "=0.23.14"
nalgebra = { version = "=0.21.1", features = ["serde-serialize"] }
rand = "=0.7.3"
serde = { version = "=1.0.229", features = ["derive"] }
structopt = "=0.3.26"
toml = "=0.5.11"
