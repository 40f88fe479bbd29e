[package]
name = "speedwalk"
version = "0.1.0"
edition = "2021"
publish = false

[dependencies]
anyhow = "*"
geo = "*"
geojson = "*"
petgraph = "*"
rstar = "*"
serde = { version = "*", features = ["derive"] }
serde_json = "*"
