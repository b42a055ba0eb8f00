[package]
name = "fastgeotoolkit"
version = "0.1.3"
edition = "2021"
publish = false

[dependencies]
gpx = "*"
serde = { version = "*", features = ["derive"] }
serde_json = "*"
pyo3 = "*"
