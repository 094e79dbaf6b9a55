[package]
name = "widths"
version = "0.1.0"
edition = "2021"
publish = false

[dependencies]
anyhow = "=1.0.104"
geo = "=0.24.1"
geo-buffer = "=0.2.0"
geojson = "=1.0.0"
serde = { version = "=1.0.229", features = ["derive"] }
serde_json = "=1.0.151"
