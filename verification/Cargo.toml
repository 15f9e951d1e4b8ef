[package]
name = "provviz"
version = "0.1.0"
edition = "2021"
publish = false

[dependencies]
chrono = "*"
geo = "*"
geojson = "*"
serde = { version = "*", features = ["derive"] }
serde_json = "*"
gloo-net = "*"
