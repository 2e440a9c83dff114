[package]
name = "representation-theory"
version = "0.1.0"
edition = "2021"
publish = false

[dependencies]
nalgebra = { version = "=0.33.3", features = ["serde-serialize"] }
num-complex = { version = "=0.4.6", features = ["serde"] }
serde = { version = "=1.0.229", features = ["derive"] }
