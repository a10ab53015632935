[package]
name = "linea_air"
version = "0.1.0"
edition = "2021"
publish = false

[dependencies]
ark-bls12-377 = "*"
ark-ff = "*"
p3-air = "*"
p3-field = "*"
p3-matrix = "*"
rand = "0.8"
ciborium = "*"
serde = { version = "*", features = ["derive"] }
